use vstd::prelude::*;
use crate::request_payload::{
    BusinessData, Header, Metadata, RequestData, RequestView, is_fresh, merged_business,
};

verus! {

/// A message's key: application id and task id.
pub type MessageKey = (Seq<char>, Seq<char>);

/// The bytes gathered so far under `k`; none where `k` has no record.
pub open spec fn prior_stream(m: Map<MessageKey, RequestView>, k: MessageKey) -> Seq<u8> {
    if m.contains_key(k) {
        m[k].stream
    } else {
        Seq::<u8>::empty()
    }
}

/// The business data held under `k`; none where `k` has no record.
pub open spec fn prior_business(
    m: Map<MessageKey, RequestView>,
    k: MessageKey,
) -> Option<BusinessData> {
    if m.contains_key(k) {
        m[k].business_data
    } else {
        None
    }
}

/// The key a frame is filed under.
pub open spec fn frame_key(header: Header) -> MessageKey {
    (header.app_id@, header.msg_id@)
}

/// The record of a frame's message once the frame is taken in: on top of the
/// record that was there, or of a fresh one.
pub open spec fn record_after(
    m: Map<MessageKey, RequestView>,
    header: Header,
    metadata: Metadata,
    business_data: Option<BusinessData>,
    fragment: Seq<u8>,
) -> RequestView {
    RequestView {
        header,
        metadata,
        business_data: merged_business(prior_business(m, frame_key(header)), business_data),
        stream: prior_stream(m, frame_key(header)) + fragment,
        drained: false,
    }
}

/// Whether a frame completes its message.
pub open spec fn completes(metadata: Metadata) -> bool {
    metadata.chunk_index == metadata.chunk_total
}

/// The store after one frame: the key leaves it on the final chunk, and holds
/// the updated record otherwise.
pub open spec fn store_after(
    m: Map<MessageKey, RequestView>,
    header: Header,
    metadata: Metadata,
    business_data: Option<BusinessData>,
    fragment: Seq<u8>,
) -> Map<MessageKey, RequestView> {
    if completes(metadata) {
        m.remove(frame_key(header))
    } else {
        m.insert(frame_key(header), record_after(m, header, metadata, business_data, fragment))
    }
}

/// The bytes a frame hands out: on the final chunk, when the count of bytes
/// gathered matches the declared length, all of them; nothing otherwise.
pub open spec fn output_after(
    m: Map<MessageKey, RequestView>,
    header: Header,
    metadata: Metadata,
    business_data: Option<BusinessData>,
    fragment: Seq<u8>,
) -> Option<Seq<u8>> {
    let rec = record_after(m, header, metadata, business_data, fragment);
    if completes(metadata) && rec.stream.len() == metadata.stream_length {
        Some(rec.stream)
    } else {
        None
    }
}

/// One frame of a message: its metadata, business data and fragment.
pub type FrameStep = (Metadata, Option<BusinessData>, Seq<u8>);

/// The store after a run of frames that share a header.
pub open spec fn store_after_all(
    m: Map<MessageKey, RequestView>,
    header: Header,
    frames: Seq<FrameStep>,
) -> Map<MessageKey, RequestView>
    decreases frames.len(),
{
    if frames.len() == 0 {
        m
    } else {
        let prev = store_after_all(m, header, frames.drop_last());
        let f = frames.last();
        store_after(prev, header, f.0, f.1, f.2)
    }
}

/// The fragments of a run of frames, one after another.
pub open spec fn fragments(frames: Seq<FrameStep>) -> Seq<u8>
    decreases frames.len(),
{
    if frames.len() == 0 {
        Seq::<u8>::empty()
    } else {
        fragments(frames.drop_last()) + frames.last().2
    }
}

/// Frames numbered `0..frames.len()` in order, all declaring the last index
/// as their total.
pub open spec fn in_order(frames: Seq<FrameStep>) -> bool {
    forall|i: int|
        0 <= i < frames.len() ==> (#[trigger] frames[i]).0.chunk_index == i
            && frames[i].0.chunk_total == frames.len() - 1
}

/// The store after `get_or_create`.
pub open spec fn store_after_lookup(
    m: Map<MessageKey, RequestView>,
    k: MessageKey,
    fresh: RequestView,
) -> Map<MessageKey, RequestView> {
    if m.contains_key(k) {
        m
    } else {
        m.insert(k, fresh)
    }
}

/// A message whose last chunk has arrived.
pub struct CompletedMessage {
    pub header: Header,
    pub metadata: Metadata,
    pub business_data: Option<BusinessData>,
    pub payload: Vec<u8>,
}

/// Failures of reassembly.
#[derive(PartialEq, Eq, Structural, Clone, Copy, Debug)]
pub enum ReassemblyError {
    /// The bytes gathered differ in number from the declared stream length;
    /// the message has left the store all the same.
    ReassemblyLengthMismatch { declared: u32, actual: usize },
}

proof fn lemma_prefix_steps(m: Map<MessageKey, RequestView>, header: Header, frames: Seq<FrameStep>)
    requires
        !m.contains_key(frame_key(header)),
        forall|i: int| 0 <= i < frames.len() ==> !completes((#[trigger] frames[i]).0),
    ensures
        prior_stream(store_after_all(m, header, frames), frame_key(header)) == fragments(frames),
        frames.len() == 0 ==> !store_after_all(m, header, frames).contains_key(frame_key(header)),
    decreases frames.len(),
{
    if frames.len() > 0 {
        let pre = frames.drop_last();
        assert forall|i: int| 0 <= i < pre.len() implies !completes((#[trigger] pre[i]).0) by {
            assert(pre[i] == frames[i]);
        }
        lemma_prefix_steps(m, header, pre);
        assert(!completes(frames[frames.len() - 1].0));
    }
}

/// Frames numbered `0..=N` in order for a key with nothing in flight, the
/// last one final: no frame before the last hands anything out, and the last
/// hands out every fragment, in order, when the declared length is right;
/// the key has then left the store.
pub proof fn lemma_in_order_reassembly(
    m: Map<MessageKey, RequestView>,
    header: Header,
    frames: Seq<FrameStep>,
)
    requires
        !m.contains_key(frame_key(header)),
        frames.len() > 0,
        in_order(frames),
        frames.last().0.stream_length == fragments(frames).len(),
    ensures
        forall|i: int|
            0 <= i < frames.len() - 1 ==> output_after(
                store_after_all(m, header, frames.take(i)),
                header,
                (#[trigger] frames[i]).0,
                frames[i].1,
                frames[i].2,
            ) is None,
        output_after(
            store_after_all(m, header, frames.drop_last()),
            header,
            frames.last().0,
            frames.last().1,
            frames.last().2,
        ) == Some(fragments(frames)),
        !store_after_all(m, header, frames).contains_key(frame_key(header)),
{
    let pre = frames.drop_last();
    assert forall|i: int| 0 <= i < pre.len() implies !completes((#[trigger] pre[i]).0) by {
        assert(pre[i] == frames[i]);
    }
    lemma_prefix_steps(m, header, pre);
    assert forall|i: int| 0 <= i < frames.len() - 1 implies output_after(
        store_after_all(m, header, frames.take(i)),
        header,
        (#[trigger] frames[i]).0,
        frames[i].1,
        frames[i].2,
    ) is None by {
        assert(frames[i].0.chunk_index == i);
    }
    assert(frames[frames.len() - 1].0.chunk_index == frames.len() - 1);
}

/// A single-frame message (index and total both zero) for a key with nothing
/// in flight is handed out at once, when its declared length is right, and
/// leaves nothing in the store.
pub proof fn lemma_single_frame(
    m: Map<MessageKey, RequestView>,
    header: Header,
    metadata: Metadata,
    business_data: Option<BusinessData>,
    fragment: Seq<u8>,
)
    requires
        !m.contains_key(frame_key(header)),
        metadata.chunk_index == 0,
        metadata.chunk_total == 0,
        metadata.stream_length == fragment.len(),
    ensures
        output_after(m, header, metadata, business_data, fragment) == Some(fragment),
        !store_after(m, header, metadata, business_data, fragment).contains_key(frame_key(header)),
{
    assert(Seq::<u8>::empty() + fragment =~= fragment);
}

/// Looking a key up, once or any number of times more, adds at most that
/// one key: never a second record for it.
pub proof fn lemma_lookup_creates_once(
    m: Map<MessageKey, RequestView>,
    k: MessageKey,
    fresh: RequestView,
    again: RequestView,
)
    ensures
        store_after_lookup(m, k, fresh).dom() == m.dom().insert(k),
        store_after_lookup(store_after_lookup(m, k, fresh), k, again) == store_after_lookup(
            m,
            k,
            fresh,
        ),
{
    assert(store_after_lookup(m, k, fresh).dom() =~= m.dom().insert(k));
}

/// Once a message completes its key has left the store, and the next frame
/// under that key starts from an empty record.
pub proof fn lemma_fresh_after_completion(
    m: Map<MessageKey, RequestView>,
    header: Header,
    metadata: Metadata,
    business_data: Option<BusinessData>,
    fragment: Seq<u8>,
    next_header: Header,
    next_metadata: Metadata,
    next_business: Option<BusinessData>,
    next_fragment: Seq<u8>,
)
    requires
        completes(metadata),
        frame_key(next_header) == frame_key(header),
    ensures
        !store_after(m, header, metadata, business_data, fragment).contains_key(frame_key(header)),
        record_after(
            store_after(m, header, metadata, business_data, fragment),
            next_header,
            next_metadata,
            next_business,
            next_fragment,
        ).stream == next_fragment,
        record_after(
            store_after(m, header, metadata, business_data, fragment),
            next_header,
            next_metadata,
            next_business,
            next_fragment,
        ).business_data == next_business,
{
    assert(Seq::<u8>::empty() + next_fragment =~= next_fragment);
}

/// A frame touches its own key only: every other key, the same task id under
/// another application included, keeps what it had.
pub proof fn lemma_keys_independent(
    m: Map<MessageKey, RequestView>,
    header: Header,
    metadata: Metadata,
    business_data: Option<BusinessData>,
    fragment: Seq<u8>,
    other: MessageKey,
)
    requires
        other != frame_key(header),
    ensures
        store_after(m, header, metadata, business_data, fragment).contains_key(other)
            == m.contains_key(other),
        m.contains_key(other) ==> store_after(m, header, metadata, business_data, fragment)[other]
            == m[other],
{
}

/// Whether a message last touched at `touched` has been idle for longer
/// than `max_idle` at time `now`.
pub open spec fn is_idle(touched: u64, now: u64, max_idle: u64) -> bool {
    touched + max_idle < now
}

struct StoreEntry {
    app_id: String,
    task_id: String,
    data: RequestData,
    last_touched: u64,
}

/// The in-flight messages, each under its (application id, task id) key.
pub struct MessageStore {
    entries: Vec<StoreEntry>,
    model: Ghost<Map<MessageKey, RequestView>>,
    touched: Ghost<Map<MessageKey, u64>>,
}

impl MessageStore {
    closed spec fn key_at(&self, i: int) -> MessageKey {
        (self.entries@[i].app_id@, self.entries@[i].task_id@)
    }

    /// The store's invariant: one entry per key, none drained, and the
    /// entries match the view.
    pub closed spec fn wf(&self) -> bool {
        &&& forall|i: int, j: int|
            0 <= i < j < self.entries@.len() ==> #[trigger] self.key_at(i) != #[trigger] self.key_at(j)
        &&& forall|i: int|
            0 <= i < self.entries@.len() ==> {
                &&& self.model@.contains_key(#[trigger] self.key_at(i))
                &&& self.model@[self.key_at(i)] == self.entries@[i].data@
            }
        &&& forall|k: MessageKey|
            #[trigger] self.model@.contains_key(k) ==> exists|i: int|
                0 <= i < self.entries@.len() && #[trigger] self.key_at(i) == k
        &&& forall|k: MessageKey| #[trigger] self.model@.contains_key(k) ==> !self.model@[k].drained
        &&& self.touched@.dom() == self.model@.dom()
        &&& forall|i: int|
            0 <= i < self.entries@.len() ==> self.touched@[#[trigger] self.key_at(i)]
                == self.entries@[i].last_touched
    }

    /// When each message in flight last took in a frame or was looked up.
    pub closed spec fn last_touched(&self) -> Map<MessageKey, u64> {
        self.touched@
    }

    pub closed spec fn view(&self) -> Map<MessageKey, RequestView> {
        self.model@
    }

    /// An empty store.
    pub fn new() -> (r: MessageStore)
        ensures
            r.wf(),
            r@ == Map::<MessageKey, RequestView>::empty(),
    {
        let r = MessageStore {
            entries: Vec::new(),
            model: Ghost(Map::empty()),
            touched: Ghost(Map::empty()),
        };
        assert(r.touched@.dom() =~= r.model@.dom());
        r
    }

    fn find(&self, app_id: &String, task_id: &String) -> (r: Option<usize>)
        requires
            self.wf(),
        ensures
            match r {
                Some(i) => i < self.entries@.len() && self.key_at(i as int) == (app_id@, task_id@),
                None => !self@.contains_key((app_id@, task_id@)),
            },
    {
        let mut i: usize = 0;
        while i < self.entries.len()
            invariant
                self.wf(),
                i <= self.entries@.len(),
                forall|j: int| 0 <= j < i ==> self.key_at(j) != (app_id@, task_id@),
            decreases self.entries@.len() - i,
        {
            if self.entries[i].app_id == *app_id && self.entries[i].task_id == *task_id {
                return Some(i);
            }
            i += 1;
        }
        None
    }

    /// Number of messages in flight.
    pub fn len(&self) -> (r: usize)
        requires
            self.wf(),
        ensures
            r == self@.dom().len(),
    {
        proof {
            self.lemma_dom_len();
        }
        self.entries.len()
    }

    proof fn lemma_dom_len(&self)
        requires
            self.wf(),
        ensures
            self@.dom().finite(),
            self@.dom().len() == self.entries@.len(),
        decreases self.entries@.len(),
    {
        let keys = Seq::new(self.entries@.len(), |i: int| self.key_at(i));
        assert(keys.no_duplicates()) by {
            assert forall|i: int, j: int| 0 <= i < keys.len() && 0 <= j < keys.len() && i != j
                implies keys[i] != keys[j] by {
                if i < j {
                    assert(self.key_at(i) != self.key_at(j));
                } else {
                    assert(self.key_at(j) != self.key_at(i));
                }
            }
        }
        assert(keys.to_set() =~= self@.dom()) by {
            assert forall|k: MessageKey| self@.dom().contains(k) implies keys.to_set().contains(k) by {
                let i = choose|i: int| 0 <= i < self.entries@.len() && #[trigger] self.key_at(i) == k;
                assert(keys[i] == k);
            }
        }
        keys.unique_seq_to_set();
    }

    /// Whether a message is in flight under the key.
    pub fn contains(&self, app_id: &String, task_id: &String) -> (r: bool)
        requires
            self.wf(),
        ensures
            r == self@.contains_key((app_id@, task_id@)),
    {
        self.find(app_id, task_id).is_some()
    }

    /// The record in flight under the key, if any.
    pub fn get(&self, app_id: &String, task_id: &String) -> (r: Option<&RequestData>)
        requires
            self.wf(),
        ensures
            match r {
                Some(d) => self@.contains_key((app_id@, task_id@)) && d@ == self@[(app_id@, task_id@)],
                None => !self@.contains_key((app_id@, task_id@)),
            },
    {
        match self.find(app_id, task_id) {
            Some(i) => Some(&self.entries[i].data),
            None => None,
        }
    }

    /// Bytes gathered under the key; zero where no message is in flight.
    pub fn buffered_len(&self, app_id: &String, task_id: &String) -> (r: usize)
        requires
            self.wf(),
        ensures
            r == prior_stream(self@, (app_id@, task_id@)).len(),
    {
        match self.find(app_id, task_id) {
            Some(i) => self.entries[i].data.stream_len(),
            None => 0,
        }
    }

    /// Takes out the entry at `i`.
    fn take_entry(&mut self, i: usize) -> (r: StoreEntry)
        requires
            old(self).wf(),
            i < old(self).entries@.len(),
        ensures
            final(self).wf(),
            (r.app_id@, r.task_id@) == old(self).key_at(i as int),
            r.data@ == old(self)@[old(self).key_at(i as int)],
            r.last_touched == old(self).last_touched()[old(self).key_at(i as int)],
            final(self).entries@.len() + 1 == old(self).entries@.len(),
            forall|a: int|
                0 <= a < final(self).entries@.len() ==> #[trigger] final(self).key_at(a)
                    == old(self).key_at(if a < i { a } else { a + 1 }),
            final(self)@ == old(self)@.remove(old(self).key_at(i as int)),
            final(self).last_touched() == old(self).last_touched().remove(old(self).key_at(i as int)),
    {
        let ghost k = self.key_at(i as int);
        let ghost old_self = *self;
        let e = self.entries.remove(i);
        self.model = Ghost(self.model@.remove(k));
        self.touched = Ghost(self.touched@.remove(k));
        proof {
            assert(self.touched@.dom() =~= self.model@.dom());
            assert forall|a: int| 0 <= a < self.entries@.len() implies #[trigger] self.key_at(a)
                == old_self.key_at(if a < i { a } else { a + 1 }) by {}
            assert forall|a: int, b: int| 0 <= a < b < self.entries@.len() implies #[trigger] self.key_at(a)
                != #[trigger] self.key_at(b) by {
                let a2 = if a < i { a } else { a + 1 };
                let b2 = if b < i { b } else { b + 1 };
                assert(old_self.key_at(a2) != old_self.key_at(b2));
            }
            assert forall|a: int| 0 <= a < self.entries@.len() implies {
                &&& self.model@.contains_key(#[trigger] self.key_at(a))
                &&& self.model@[self.key_at(a)] == self.entries@[a].data@
            } by {
                let a2 = if a < i { a } else { a + 1 };
                assert(old_self.key_at(a2) == self.key_at(a));
                if a2 < i {
                    assert(old_self.key_at(a2) != old_self.key_at(i as int));
                } else {
                    assert(old_self.key_at(i as int) != old_self.key_at(a2));
                }
            }
            assert forall|kk: MessageKey| #[trigger] self.model@.contains_key(kk) implies exists|a: int|
                0 <= a < self.entries@.len() && #[trigger] self.key_at(a) == kk by {
                let a2 = choose|a2: int| 0 <= a2 < old_self.entries@.len() && #[trigger] old_self.key_at(a2) == kk;
                assert(a2 != i);
                let a = if a2 < i { a2 } else { a2 - 1 };
                assert(self.key_at(a) == kk);
            }
            assert forall|a: int| 0 <= a < self.entries@.len() implies self.touched@[
                #[trigger] self.key_at(a)] == self.entries@[a].last_touched by {
                let a2 = if a < i { a } else { a + 1 };
                assert(old_self.key_at(a2) == self.key_at(a));
            }
        }
        e
    }

    /// Adds an entry under a key that the store does not hold.
    fn put_entry(&mut self, e: StoreEntry)
        requires
            old(self).wf(),
            !old(self)@.contains_key((e.app_id@, e.task_id@)),
            !e.data@.drained,
        ensures
            final(self).wf(),
            final(self)@ == old(self)@.insert((e.app_id@, e.task_id@), e.data@),
            final(self).last_touched() == old(self).last_touched().insert(
                (e.app_id@, e.task_id@),
                e.last_touched,
            ),
    {
        let ghost k = (e.app_id@, e.task_id@);
        let ghost d = e.data@;
        let ghost t = e.last_touched;
        let ghost old_self = *self;
        self.entries.push(e);
        self.model = Ghost(self.model@.insert(k, d));
        self.touched = Ghost(self.touched@.insert(k, t));
        proof {
            assert(self.touched@.dom() =~= self.model@.dom());
            let n = old_self.entries@.len() as int;
            assert forall|a: int| 0 <= a < n implies #[trigger] self.key_at(a) == old_self.key_at(a) by {}
            assert(self.key_at(n) == k);
            assert forall|a: int, b: int| 0 <= a < b < self.entries@.len() implies #[trigger] self.key_at(a)
                != #[trigger] self.key_at(b) by {
                if b == n {
                    assert(old_self@.contains_key(old_self.key_at(a)));
                } else {
                    assert(old_self.key_at(a) != old_self.key_at(b));
                }
            }
            assert forall|a: int| 0 <= a < self.entries@.len() implies {
                &&& self.model@.contains_key(#[trigger] self.key_at(a))
                &&& self.model@[self.key_at(a)] == self.entries@[a].data@
            } by {
                if a < n {
                    assert(old_self@.contains_key(old_self.key_at(a)));
                }
            }
            assert forall|kk: MessageKey| #[trigger] self.model@.contains_key(kk) implies exists|a: int|
                0 <= a < self.entries@.len() && #[trigger] self.key_at(a) == kk by {
                if kk == k {
                    assert(self.key_at(n) == kk);
                } else {
                    let a = choose|a: int| 0 <= a < old_self.entries@.len() && #[trigger] old_self.key_at(a) == kk;
                    assert(self.key_at(a) == kk);
                }
            }
            assert forall|a: int| 0 <= a < self.entries@.len() implies self.touched@[
                #[trigger] self.key_at(a)] == self.entries@[a].last_touched by {
                if a < n {
                    assert(old_self@.contains_key(old_self.key_at(a)));
                }
            }
        }
    }

    /// Makes sure a record exists under the key: the one there, or a fresh
    /// one, touched at `now` either way. Returns whether it made one.
    pub fn get_or_create(&mut self, app_id: &String, task_id: &String, now: u64) -> (created: bool)
        requires
            old(self).wf(),
        ensures
            final(self).wf(),
            created == !old(self)@.contains_key((app_id@, task_id@)),
            final(self)@.contains_key((app_id@, task_id@)),
            created ==> is_fresh(final(self)@[(app_id@, task_id@)]),
            final(self)@ == store_after_lookup(
                old(self)@,
                (app_id@, task_id@),
                final(self)@[(app_id@, task_id@)],
            ),
            final(self).last_touched() == old(self).last_touched().insert((app_id@, task_id@), now),
    {
        match self.find(app_id, task_id) {
            Some(i) => {
                let ghost m = self@;
                let ghost t = self.last_touched();
                let mut e = self.take_entry(i);
                e.last_touched = now;
                self.put_entry(e);
                assert(self@ =~= m);
                assert(self.last_touched() =~= t.insert((app_id@, task_id@), now));
                false
            },
            None => {
                let e = StoreEntry {
                    app_id: app_id.clone(),
                    task_id: task_id.clone(),
                    data: RequestData::new(),
                    last_touched: now,
                };
                self.put_entry(e);
                true
            },
        }
    }

    /// Drops the record under the key, if any, and hands it back.
    pub fn remove(&mut self, app_id: &String, task_id: &String) -> (r: Option<RequestData>)
        requires
            old(self).wf(),
        ensures
            final(self).wf(),
            final(self)@ == old(self)@.remove((app_id@, task_id@)),
            final(self).last_touched() == old(self).last_touched().remove((app_id@, task_id@)),
            match r {
                Some(d) => old(self)@.contains_key((app_id@, task_id@)) && d@ == old(self)@[(
                app_id@,
                task_id@,
                )],
                None => !old(self)@.contains_key((app_id@, task_id@)),
            },
    {
        match self.find(app_id, task_id) {
            Some(i) => {
                let e = self.take_entry(i);
                Some(e.data)
            },
            None => {
                assert(self@.remove((app_id@, task_id@)) =~= self@);
                assert(self.last_touched().remove((app_id@, task_id@)) =~= self.last_touched());
                None
            },
        }
    }

    /// Takes in one frame. Its record is looked up, or made, under the
    /// frame's (application id, message id) key, and the frame is appended.
    /// On the final chunk the record leaves the store and its bytes come out,
    /// or a length mismatch is reported; on any other chunk nothing comes
    /// out. The record counts as touched at `now`.
    pub fn process_frame(
        &mut self,
        header: Header,
        metadata: Metadata,
        business_data: Option<BusinessData>,
        fragment: &[u8],
        now: u64,
    ) -> (r: Result<Option<CompletedMessage>, ReassemblyError>)
        requires
            old(self).wf(),
            prior_stream(old(self)@, frame_key(header)).len() + fragment@.len() <= isize::MAX,
        ensures
            final(self).wf(),
            final(self)@ == store_after(old(self)@, header, metadata, business_data, fragment@),
            final(self).last_touched() == if completes(metadata) {
                old(self).last_touched().remove(frame_key(header))
            } else {
                old(self).last_touched().insert(frame_key(header), now)
            },
            output_after(old(self)@, header, metadata, business_data, fragment@) == match r {
                Ok(Some(c)) => Some(c.payload@),
                _ => None::<Seq<u8>>,
            },
            ({
                let rec = record_after(old(self)@, header, metadata, business_data, fragment@);
                if !completes(metadata) {
                    r == Ok::<Option<CompletedMessage>, ReassemblyError>(None)
                } else if rec.stream.len() != metadata.stream_length {
                    r == Err::<Option<CompletedMessage>, ReassemblyError>(
                        ReassemblyError::ReassemblyLengthMismatch {
                            declared: metadata.stream_length,
                            actual: rec.stream.len() as usize,
                        },
                    )
                } else {
                    &&& r matches Ok(Some(c))
                    &&& c.header == rec.header
                    &&& c.metadata == rec.metadata
                    &&& c.business_data == rec.business_data
                    &&& c.payload@ == rec.stream
                }
            }),
    {
        let ghost m = self@;
        let ghost k = frame_key(header);
        let mut e = match self.find(&header.app_id, &header.msg_id) {
            Some(i) => self.take_entry(i),
            None => StoreEntry {
                app_id: header.app_id.clone(),
                task_id: header.msg_id.clone(),
                data: RequestData::new(),
                last_touched: now,
            },
        };
        let ghost t = self.last_touched();
        assert(self@ == m.remove(k));
        e.last_touched = now;
        let done = metadata.chunk_index == metadata.chunk_total;
        e.data.append(header, metadata, business_data, fragment);
        assert(e.data@ == record_after(m, e.data@.header, e.data@.metadata, business_data, fragment@));
        if !done {
            self.put_entry(e);
            assert(self@ =~= m.insert(k, e.data@));
            assert(self.last_touched() =~= t.insert(k, now));
            return Ok(None);
        }
        assert(self@ =~= m.remove(k));
        assert(self.last_touched() =~= t);
        if !e.data.length_matches() {
            return Err(
                ReassemblyError::ReassemblyLengthMismatch {
                    declared: e.data.metadata().stream_length,
                    actual: e.data.stream_len(),
                },
            );
        }
        let payload = e.data.take_stream();
        let (header, metadata, business_data) = e.data.into_parts();
        Ok(Some(CompletedMessage { header, metadata, business_data, payload }))
    }

    /// Drops every message that has been idle for longer than `max_idle` at
    /// time `now`, such as one whose connection went away mid-message.
    /// Returns how many it dropped.
    pub fn evict_idle(&mut self, now: u64, max_idle: u64) -> (removed: usize)
        requires
            old(self).wf(),
        ensures
            final(self).wf(),
            forall|k: MessageKey|
                #[trigger] final(self)@.contains_key(k) <==> old(self)@.contains_key(k) && !is_idle(
                    old(self).last_touched()[k],
                    now,
                    max_idle,
                ),
            forall|k: MessageKey| #[trigger]
                final(self)@.contains_key(k) ==> final(self)@[k] == old(self)@[k]
                    && final(self).last_touched()[k] == old(self).last_touched()[k],
            removed == old(self)@.dom().len() - final(self)@.dom().len(),
    {
        let ghost orig = *self;
        proof {
            orig.lemma_dom_len();
        }
        let total = self.entries.len();
        let mut removed: usize = 0;
        let mut i: usize = 0;
        while i < self.entries.len()
            invariant
                self.wf(),
                orig.wf(),
                i <= self.entries@.len(),
                total == orig.entries@.len(),
                removed + self.entries@.len() == total,
                forall|k: MessageKey| #[trigger]
                    self@.contains_key(k) ==> orig@.contains_key(k) && self@[k] == orig@[k]
                        && self.last_touched()[k] == orig.last_touched()[k],
                forall|k: MessageKey|
                    #[trigger] orig@.contains_key(k) && !self@.contains_key(k) ==> is_idle(
                        orig.last_touched()[k],
                        now,
                        max_idle,
                    ),
                forall|j: int|
                    0 <= j < i ==> !is_idle(
                        self.last_touched()[#[trigger] self.key_at(j)],
                        now,
                        max_idle,
                    ),
            decreases self.entries@.len() - i,
        {
            let t = self.entries[i].last_touched;
            if t as u128 + max_idle as u128 >= now as u128 {
                i += 1;
            } else {
                let ghost before = *self;
                let ghost k = self.key_at(i as int);
                let _ = self.take_entry(i);
                removed += 1;
                proof {
                    assert forall|j: int| 0 <= j < i implies !is_idle(
                        self.last_touched()[#[trigger] self.key_at(j)],
                        now,
                        max_idle,
                    ) by {
                        assert(self.key_at(j) == before.key_at(j));
                        assert(before.key_at(j) != before.key_at(i as int));
                    }
                }
            }
        }
        proof {
            self.lemma_dom_len();
            assert forall|k: MessageKey| #[trigger]
                self@.contains_key(k) implies !is_idle(orig.last_touched()[k], now, max_idle) by {
                let j = choose|j: int| 0 <= j < self.entries@.len() && #[trigger] self.key_at(j) == k;
            }
        }
        removed
    }
}

} // verus!
