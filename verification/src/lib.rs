//! A per-thread ledger of open tracing spans.
//!
//! A guest environment that cannot use scoped (drop-based) span guards drives
//! the host's tracing backend through two primitives: "create and enter a
//! span, give me an id" and "exit the span with this id".  The ledger owns the
//! bookkeeping this requires: it issues strictly increasing ids, keeps the
//! open entries as a stack, bounds their number by evicting the oldest entry,
//! tolerates exits that arrive out of order, and on teardown closes and
//! invalidates every entry still open.
//!
//! The ledger itself holds plain values only.  Every entry it releases is
//! handed back to the caller, so that the embedding code can perform the
//! matching backend effects (record `is_valid_trace = false` where an entry
//! was force-closed, then release the span's active guard and the span, in
//! that order).

use vstd::prelude::*;

verus! {

/// Largest number of entries the ledger keeps open at once; a `create_span`
/// that would exceed it evicts the oldest entry.
pub const MAX_SPANS_LEN: usize = 1000;

/// The fixed trace-category tag every proxied span is registered under.
pub const WASM_TRACE_IDENTIFIER: &'static str = "WASM_TRACE";

/// The field name under which a proxied span carries the caller's `target`.
pub const WASM_TARGET_KEY: &'static str = "proxied_wasm_target";

/// The field name under which a proxied span carries the caller's `name`.
pub const WASM_NAME_KEY: &'static str = "proxied_wasm_name";

/// The mathematical value of a span entry: its id, whether its trace is still
/// to be trusted, and the caller-supplied target and name.
#[verifier::ext_equal]
pub ghost struct EntryModel {
    pub id: u64,
    pub valid: bool,
    pub target: Seq<char>,
    pub name: Seq<char>,
}

/// One open (or just-released) span: the id handed to the caller, the
/// `is_valid_trace` flag the backend is told about, and the caller-supplied
/// target and name carried as the span's structured fields.
pub struct SpanEntry {
    pub id: u64,
    pub is_valid_trace: bool,
    pub target: String,
    pub name: String,
}

impl View for SpanEntry {
    type V = EntryModel;

    open spec fn view(&self) -> EntryModel {
        EntryModel {
            id: self.id,
            valid: self.is_valid_trace,
            target: self.target@,
            name: self.name@,
        }
    }
}

/// `e` with its trace marked untrustworthy.
pub open spec fn invalidated(e: EntryModel) -> EntryModel {
    EntryModel { valid: false, ..e }
}

/// The entry a `create_span` call with these arguments appends: freshly
/// issued id, valid, carrying the caller's target and name.
pub open spec fn created_entry(id: u64, target: Seq<char>, name: Seq<char>) -> EntryModel {
    EntryModel { id, valid: true, target, name }
}

/// The open entries after appending `e`: the stack grows by one, except that
/// at capacity the oldest entry is dropped first.
pub open spec fn after_create(s: Seq<EntryModel>, e: EntryModel) -> Seq<EntryModel> {
    if s.len() < MAX_SPANS_LEN {
        s.push(e)
    } else {
        s.subrange(1, s.len() as int).push(e)
    }
}

/// The entry a `create_span` call evicts, already invalidated: the oldest
/// open entry, when the ledger is at capacity.
pub open spec fn create_evicted(s: Seq<EntryModel>) -> Option<EntryModel> {
    if s.len() < MAX_SPANS_LEN {
        None
    } else {
        Some(invalidated(s[0]))
    }
}

/// The entry models of a batch of released entries, in pop order.
pub open spec fn models_of(s: Seq<SpanEntry>) -> Seq<EntryModel> {
    Seq::new(s.len(), |i: int| s[i]@)
}

/// What `exit_span(id)` does to the open entries: nothing on an empty stack
/// (the id is not found).  Otherwise entries are popped from the top; the
/// walk stops as soon as a popped entry's id equals the requested one — that
/// entry is released with its validity as it stands — or the stack runs out
/// (the id is not found).  Every other popped entry is being force-closed
/// out of turn, so it is invalidated before release.  Returns the remaining
/// entries and the released ones in pop order.
pub open spec fn spec_exit(s: Seq<EntryModel>, id: u64) -> (Seq<EntryModel>, Seq<EntryModel>)
    decreases s.len(),
{
    if s.len() == 0 {
        (s, Seq::empty())
    } else {
        let top = s.last();
        let rest = s.drop_last();
        if top.id == id {
            (rest, seq![top])
        } else {
            let r = spec_exit(rest, id);
            (r.0, seq![invalidated(top)] + r.1)
        }
    }
}

/// What tearing the ledger down releases: every open entry, most recent
/// first, each invalidated.
pub open spec fn spec_teardown(s: Seq<EntryModel>) -> Seq<EntryModel> {
    Seq::new(s.len(), |i: int| invalidated(s[s.len() - 1 - i]))
}

/// A pointwise prefix of a bounded stack of valid entries with strictly
/// increasing ids, all between 1 and `next_id`, is again such a stack.
proof fn lemma_prefix_wf(pre: Seq<EntryModel>, post: Seq<EntryModel>, next_id: u64)
    requires
        post.len() <= pre.len(),
        forall|i: int| 0 <= i < post.len() ==> post[i] == pre[i],
        pre.len() <= MAX_SPANS_LEN,
        forall|i: int| 0 <= i < pre.len() ==> 1 <= #[trigger] pre[i].id <= next_id,
        forall|i: int, j: int|
            0 <= i < j < pre.len() ==> #[trigger] pre[i].id < #[trigger] pre[j].id,
        forall|i: int| 0 <= i < pre.len() ==> #[trigger] pre[i].valid,
    ensures
        post.len() <= MAX_SPANS_LEN,
        forall|i: int| 0 <= i < post.len() ==> 1 <= #[trigger] post[i].id <= next_id,
        forall|i: int, j: int|
            0 <= i < j < post.len() ==> #[trigger] post[i].id < #[trigger] post[j].id,
        forall|i: int| 0 <= i < post.len() ==> #[trigger] post[i].valid,
{
    assert forall|i: int| 0 <= i < post.len() implies 1 <= #[trigger] post[i].id <= next_id
        && post[i].valid by {
        assert(post[i] == pre[i]);
    }
    assert forall|i: int, j: int|
        0 <= i < j < post.len() implies #[trigger] post[i].id < #[trigger] post[j].id by {
        assert(post[i] == pre[i]);
        assert(post[j] == pre[j]);
    }
}

/// The per-thread span ledger: issues ids and keeps the stack of open entries.
pub struct TracingProxy {
    next_id: u64,
    spans: Vec<SpanEntry>,
    issued: Ghost<Seq<u64>>,
}

impl TracingProxy {
    /// The id most recently issued; the next `create_span` returns one more.
    pub closed spec fn next_id_spec(&self) -> u64 {
        self.next_id
    }

    /// The open entries, oldest first (the last element is the top of the
    /// stack: the most recently created still-open span).
    pub closed spec fn entries(&self) -> Seq<EntryModel> {
        Seq::new(self.spans@.len(), |i: int| self.spans@[i]@)
    }

    /// Every id this ledger has ever returned from `create_span`, in order.
    pub closed spec fn issued(&self) -> Seq<u64> {
        self.issued@
    }

    /// Well-formedness: the stack is bounded by `MAX_SPANS_LEN`, open entries
    /// carry ids between 1 and `next_id` in strictly increasing stack order,
    /// every open entry is still valid, and the ids issued so far are exactly
    /// `1, 2, ..., next_id`.
    pub open spec fn wf(&self) -> bool {
        &&& self.entries().len() <= MAX_SPANS_LEN
        &&& forall|i: int|
            0 <= i < self.entries().len() ==> 1 <= #[trigger] self.entries()[i].id
                <= self.next_id_spec()
        &&& forall|i: int, j: int|
            0 <= i < j < self.entries().len() ==> #[trigger] self.entries()[i].id
                < #[trigger] self.entries()[j].id
        &&& forall|i: int| 0 <= i < self.entries().len() ==> #[trigger] self.entries()[i].valid
        &&& self.issued() == Seq::new(self.next_id_spec() as nat, |k: int| (k + 1) as u64)
    }

    /// A fresh ledger: no entry open, no id issued yet.
    pub fn new() -> (r: TracingProxy)
        ensures
            r.wf(),
            r.next_id_spec() == 0,
            r.entries() == Seq::<EntryModel>::empty(),
            r.issued() == Seq::<u64>::empty(),
    {
        let spans: Vec<SpanEntry> = Vec::new();
        let r = TracingProxy { next_id: 0, spans, issued: Ghost(Seq::empty()) };
        proof {
            assert(r.entries() =~= Seq::<EntryModel>::empty());
            assert(r.issued() =~= Seq::new(r.next_id_spec() as nat, |k: int| (k + 1) as u64));
        }
        r
    }

    /// Build a new span entry carrying `target` and `name`, enter it (it
    /// becomes the top of the stack) and return its freshly issued id,
    /// together with the entry evicted to keep the stack within
    /// `MAX_SPANS_LEN`, if any.  The evicted entry is the oldest open one and
    /// comes back already invalidated, so the caller can release its backend
    /// resources after recording the invalidation.
    pub fn create_span(&mut self, target: &str, name: &str) -> (r: (u64, Option<SpanEntry>))
        requires
            old(self).wf(),
            old(self).next_id_spec() < u64::MAX,
        ensures
            final(self).wf(),
            r.0 == old(self).next_id_spec() + 1,
            final(self).next_id_spec() == r.0,
            final(self).issued() == old(self).issued().push(r.0),
            final(self).entries() == after_create(
                old(self).entries(),
                created_entry(r.0, target@, name@),
            ),
            match r.1 {
                None => create_evicted(old(self).entries()) is None,
                Some(e) => create_evicted(old(self).entries()) == Some(e@),
            },
    {
        self.next_id = self.next_id + 1;
        let entry = SpanEntry {
            id: self.next_id,
            is_valid_trace: true,
            target: String::from_str(target),
            name: String::from_str(name),
        };
        let ghost model = entry@;
        self.spans.push(entry);
        self.issued = Ghost(self.issued@.push(self.next_id));
        proof {
            assert(model == created_entry(self.next_id, target@, name@));
            assert(self.issued@ =~= Seq::new(self.next_id as nat, |k: int| (k + 1) as u64));
        }
        let evicted = if self.spans.len() > MAX_SPANS_LEN {
            let mut e = self.spans.remove(0);
            e.is_valid_trace = false;
            Some(e)
        } else {
            None
        };
        proof {
            if old(self).entries().len() < MAX_SPANS_LEN {
                assert(self.entries() =~= old(self).entries().push(model));
            } else {
                assert(self.entries() =~= old(self).entries().subrange(
                    1,
                    old(self).entries().len() as int,
                ).push(model));
            }
        }
        (self.next_id, evicted)
    }

    /// Close the span with the given id, tolerating out-of-order calls:
    /// entries are popped from the top until the requested entry is popped —
    /// it is released with its validity as it stands — or the stack runs out
    /// (the id was not found).  Every other popped entry is being
    /// force-closed out of turn and is invalidated before release.  The
    /// released entries come back in pop order, so the caller can mirror
    /// each close (and each forced invalidation) onto the backend; an empty
    /// result means the stack was already empty.
    #[verifier::loop_isolation(false)]
    pub fn exit_span(&mut self, id: u64) -> (closed: Vec<SpanEntry>)
        requires
            old(self).wf(),
        ensures
            final(self).wf(),
            final(self).next_id_spec() == old(self).next_id_spec(),
            final(self).issued() == old(self).issued(),
            final(self).entries() == spec_exit(old(self).entries(), id).0,
            models_of(closed@) == spec_exit(old(self).entries(), id).1,
    {
        let ghost orig = old(self).entries();
        let mut closed: Vec<SpanEntry> = Vec::new();
        let mut found = false;
        proof {
            assert(models_of(closed@) =~= Seq::<EntryModel>::empty());
            assert(models_of(closed@) + spec_exit(self.entries(), id).1 =~= spec_exit(
                orig,
                id,
            ).1);
        }
        while !found && self.spans.len() > 0
            invariant
                self.next_id_spec() == old(self).next_id_spec(),
                self.issued() == old(self).issued(),
                self.entries().len() <= orig.len(),
                forall|i: int| 0 <= i < self.entries().len() ==> self.entries()[i] == orig[i],
                (if found {
                    self.entries()
                } else {
                    spec_exit(self.entries(), id).0
                }) == spec_exit(orig, id).0,
                (if found {
                    models_of(closed@)
                } else {
                    models_of(closed@) + spec_exit(self.entries(), id).1
                }) == spec_exit(orig, id).1,
            decreases self.spans.len(),
        {
            let ghost pre_entries = self.entries();
            let ghost pre_closed = closed@;
            let mut e = self.spans.pop().unwrap();
            if e.id == id {
                found = true;
            } else {
                e.is_valid_trace = false;
            }
            let ghost em = e@;
            closed.push(e);
            proof {
                let top = pre_entries.last();
                assert(self.entries() =~= pre_entries.drop_last());
                assert(models_of(closed@) =~= models_of(pre_closed).push(em));
                if found {
                    assert(models_of(pre_closed) + seq![top] =~= models_of(pre_closed).push(em));
                } else {
                    assert(em == invalidated(top));
                    assert(models_of(pre_closed) + (seq![em] + spec_exit(self.entries(), id).1)
                        =~= models_of(pre_closed).push(em) + spec_exit(self.entries(), id).1);
                }
            }
        }
        proof {
            if !found {
                assert(models_of(closed@) + spec_exit(self.entries(), id).1 =~= models_of(
                    closed@,
                ));
            }
            lemma_prefix_wf(orig, self.entries(), self.next_id_spec());
        }
        closed
    }

    /// Drain the ledger, as its owner's teardown must: every entry still
    /// open is closed, most recent first, and invalidated.  Each entry ever
    /// created is therefore released exactly once — by an exit, an eviction,
    /// or this drain — so no span's backend resources are leaked and none is
    /// left active past the ledger's life.
    #[verifier::loop_isolation(false)]
    pub fn teardown(&mut self) -> (closed: Vec<SpanEntry>)
        requires
            old(self).wf(),
        ensures
            final(self).wf(),
            final(self).next_id_spec() == old(self).next_id_spec(),
            final(self).issued() == old(self).issued(),
            final(self).entries().len() == 0,
            models_of(closed@) == spec_teardown(old(self).entries()),
    {
        let ghost orig = old(self).entries();
        let mut closed: Vec<SpanEntry> = Vec::new();
        while self.spans.len() > 0
            invariant
                self.next_id_spec() == old(self).next_id_spec(),
                self.issued() == old(self).issued(),
                self.entries().len() + closed@.len() == orig.len(),
                forall|i: int| 0 <= i < self.entries().len() ==> self.entries()[i] == orig[i],
                models_of(closed@) == spec_teardown(orig).subrange(0, closed@.len() as int),
            decreases self.spans.len(),
        {
            let ghost pre_entries = self.entries();
            let ghost pre_closed = closed@;
            let mut e = self.spans.pop().unwrap();
            e.is_valid_trace = false;
            let ghost em = e@;
            closed.push(e);
            proof {
                assert(self.entries() =~= pre_entries.drop_last());
                assert(em == invalidated(orig[pre_entries.len() - 1]));
                assert(models_of(closed@) =~= models_of(pre_closed).push(em));
                assert(models_of(closed@) =~= spec_teardown(orig).subrange(
                    0,
                    closed@.len() as int,
                ));
            }
        }
        proof {
            assert(spec_teardown(orig).subrange(0, closed@.len() as int) =~= spec_teardown(orig));
            lemma_prefix_wf(orig, self.entries(), self.next_id_spec());
        }
        closed
    }

    /// How many ids the ledger has issued; the next `create_span` returns
    /// one more.
    pub fn next_id(&self) -> (r: u64)
        ensures
            r == self.next_id_spec(),
    {
        self.next_id
    }

    /// How many spans are currently open.
    pub fn len(&self) -> (r: usize)
        ensures
            r == self.entries().len(),
    {
        self.spans.len()
    }
}

/// Create and enter a span carrying `target` and `name` in the given
/// ledger, returning the span's id, which is passed back to `exit_span` to
/// close it.  An entry evicted to keep the ledger within `MAX_SPANS_LEN` is
/// released inside this call; a caller that must mirror evictions onto a
/// backend calls `TracingProxy::create_span` instead.
pub fn create_registered_span(proxy: &mut TracingProxy, target: &str, name: &str) -> (id: u64)
    requires
        old(proxy).wf(),
        old(proxy).next_id_spec() < u64::MAX,
    ensures
        final(proxy).wf(),
        id == old(proxy).next_id_spec() + 1,
        final(proxy).next_id_spec() == id,
        final(proxy).issued() == old(proxy).issued().push(id),
        final(proxy).entries() == after_create(
            old(proxy).entries(),
            created_entry(id, target@, name@),
        ),
{
    let (id, _evicted) = proxy.create_span(target, name);
    id
}

/// Close the span with the given id in the given ledger: every entry opened
/// above it is force-closed and invalidated, and the requested entry itself
/// is released as it stands (see `TracingProxy::exit_span`); an id that is
/// not open drains the whole ledger the same way.  The released entries
/// themselves stay inside this call.  On an empty ledger the call is a
/// no-op: the id is simply not found.
pub fn exit_span(proxy: &mut TracingProxy, id: u64)
    requires
        old(proxy).wf(),
    ensures
        final(proxy).wf(),
        final(proxy).next_id_spec() == old(proxy).next_id_spec(),
        final(proxy).issued() == old(proxy).issued(),
        final(proxy).entries() == spec_exit(old(proxy).entries(), id).0,
{
    let _closed = proxy.exit_span(id);
}

/// Law: ids are issued strictly increasing, starting at 1.  On any
/// well-formed ledger, the k-th id `create_span` ever returned is k + 1, so
/// the first id is 1 and every id exceeds all earlier ones — however the
/// `create` and `exit` calls were interleaved.
pub proof fn lemma_issued_ids_strictly_increasing(p: &TracingProxy)
    requires
        p.wf(),
    ensures
        forall|k: int| 0 <= k < p.issued().len() ==> #[trigger] p.issued()[k] == k + 1,
        forall|k1: int, k2: int|
            0 <= k1 < k2 < p.issued().len() ==> #[trigger] p.issued()[k1]
                < #[trigger] p.issued()[k2],
        p.issued().len() > 0 ==> p.issued()[0] == 1,
{
    assert forall|k: int| 0 <= k < p.issued().len() implies #[trigger] p.issued()[k] == k + 1 by {
        assert(p.issued()[k] == (k + 1) as u64);
    }
}

/// Law: normal LIFO usage is clean.  Creating a span on a ledger below
/// capacity and then exiting it by the id just returned releases exactly
/// that one entry, not invalidated, and leaves the open entries as they
/// were — so `create` followed by `exit(that id)`, repeated any number of
/// times from an empty ledger, ends with the ledger empty and no entry
/// marked invalid.
pub proof fn lemma_lifo_round_trip(s: Seq<EntryModel>, id: u64, target: Seq<char>, name: Seq<char>)
    requires
        s.len() < MAX_SPANS_LEN,
    ensures
        ({
            let e = created_entry(id, target, name);
            let opened = after_create(s, e);
            &&& spec_exit(opened, id).0 == s
            &&& spec_exit(opened, id).1 == seq![e]
            &&& e.valid
        }),
{
    let e = created_entry(id, target, name);
    let opened = after_create(s, e);
    assert(opened == s.push(e));
    assert(opened.last() == e);
    assert(opened.drop_last() =~= s);
    assert(spec_exit(opened, id).1 =~= seq![e]);
}

/// Law: an exit on an empty ledger finds nothing — whatever the id, the
/// ledger stays empty and no entry is released, so the call is a harmless
/// no-op.  In particular, once a span's close has emptied the ledger, a
/// second exit with the same id behaves as "id not found": the entry is
/// already gone.
pub proof fn lemma_exit_on_empty(id: u64)
    ensures
        spec_exit(Seq::<EntryModel>::empty(), id).0 == Seq::<EntryModel>::empty(),
        spec_exit(Seq::<EntryModel>::empty(), id).1 == Seq::<EntryModel>::empty(),
{
}

/// Law: a mismatched exit contains the damage.  On a stack of strictly
/// increasing ids in which position k holds the requested id, `exit`
/// releases exactly the entries from position k to the top, most recent
/// first: every entry above position k comes back force-closed and
/// invalidated, and the requested entry itself comes back as it stands,
/// without forced invalidation.  The entries below position k stay open,
/// in their order.
pub proof fn lemma_mismatched_exit(s: Seq<EntryModel>, id: u64, k: int)
    requires
        0 <= k < s.len(),
        s[k].id == id,
        forall|i: int, j: int| 0 <= i < j < s.len() ==> #[trigger] s[i].id < #[trigger] s[j].id,
    ensures
        spec_exit(s, id).0 == s.subrange(0, k),
        spec_exit(s, id).1.len() == s.len() - k,
        spec_exit(s, id).1[s.len() - k - 1] == s[k],
        forall|m: int|
            0 <= m < s.len() - k - 1 ==> #[trigger] spec_exit(s, id).1[m] == invalidated(
                s[s.len() - 1 - m],
            ),
    decreases s.len(),
{
    let top = s.last();
    let rest = s.drop_last();
    if k == s.len() - 1 {
        assert(spec_exit(s, id).0 =~= s.subrange(0, k));
        assert(spec_exit(s, id).1 =~= seq![top]);
    } else {
        assert(s[k].id < top.id);
        assert(rest[k] == s[k]);
        assert forall|i: int, j: int|
            0 <= i < j < rest.len() implies #[trigger] rest[i].id < #[trigger] rest[j].id by {
            assert(rest[i] == s[i]);
            assert(rest[j] == s[j]);
        }
        lemma_mismatched_exit(rest, id, k);
        assert(spec_exit(s, id).0 =~= s.subrange(0, k));
        assert(spec_exit(s, id).1[s.len() - k - 1] == spec_exit(rest, id).1[s.len() - k - 2]);
        assert forall|m: int|
            0 <= m < s.len() - k - 1 implies #[trigger] spec_exit(s, id).1[m] == invalidated(
            s[s.len() - 1 - m],
        ) by {
            if m == 0 {
                assert(spec_exit(s, id).1[0] == invalidated(top));
            } else {
                assert(spec_exit(s, id).1[m] == spec_exit(rest, id).1[m - 1]);
                assert(rest[rest.len() - 1 - (m - 1)] == s[s.len() - 1 - m]);
            }
        }
    }
}

/// Law: an exit whose id is not open drains the ledger.  When no open entry
/// carries the requested id — it was never issued, or its span was already
/// closed — every entry is popped, force-closed and invalidated until the
/// stack is empty and the id is finally not found: the released batch is
/// exactly what teardown would release, and the ledger ends empty.
pub proof fn lemma_exit_unknown_id_drains(s: Seq<EntryModel>, id: u64)
    requires
        forall|i: int| 0 <= i < s.len() ==> (#[trigger] s[i].id) != id,
    ensures
        spec_exit(s, id).0 == Seq::<EntryModel>::empty(),
        spec_exit(s, id).1 == spec_teardown(s),
    decreases s.len(),
{
    if s.len() == 0 {
        assert(spec_exit(s, id).0 =~= Seq::<EntryModel>::empty());
        assert(spec_exit(s, id).1 =~= spec_teardown(s));
    } else {
        let top = s.last();
        let rest = s.drop_last();
        assert(top.id != id);
        assert forall|i: int| 0 <= i < rest.len() implies (#[trigger] rest[i].id) != id by {
            assert(rest[i] == s[i]);
        }
        lemma_exit_unknown_id_drains(rest, id);
        assert forall|m: int|
            0 <= m < s.len() implies #[trigger] spec_exit(s, id).1[m] == spec_teardown(s)[m] by {
            if m > 0 {
                assert(spec_exit(s, id).1[m] == spec_teardown(rest)[m - 1]);
                assert(rest[rest.len() - 1 - (m - 1)] == s[s.len() - 1 - m]);
            }
        }
        assert(spec_exit(s, id).1 =~= spec_teardown(s));
    }
}

/// Law: teardown releases every open entry exactly once, invalidated.  The
/// released batch has one element per open entry, and the entry at depth i
/// of the stack comes back as element `len - 1 - i` of the batch — the same
/// entry, only with its trace marked untrustworthy.
pub proof fn lemma_teardown_closes_all(s: Seq<EntryModel>)
    ensures
        spec_teardown(s).len() == s.len(),
        forall|i: int|
            0 <= i < s.len() ==> spec_teardown(s)[s.len() - 1 - i] == invalidated(
                #[trigger] s[i],
            ),
{
}

} // verus!
