//! The remote sync controller: brings the remote lists and the blocking
//! policy in line with the desired domain list, one reconciliation pass at a
//! time.
//!
//! The pass is a state machine. `SyncPass::step` takes what the remote store
//! answered and says what to ask of it next; the caller performs each action
//! and hands the answer back as an event.

use vstd::prelude::*;
use crate::normalize::opt_view;
use crate::order::views;

verus! {

broadcast use vstd::string::group_string_axioms;

/// How many domains one remote list holds at most.
pub const CHUNK_SIZE: usize = 1000;

/// A remote list as the store reports it.
pub struct RemoteChunk {
    pub id: Option<String>,
    pub name: Option<String>,
    pub item_count: Option<u64>,
}

/// A remote policy as the store reports it.
pub struct RemotePolicy {
    pub id: Option<String>,
    pub name: Option<String>,
}

/// A remote list as plain values.
pub struct ChunkView {
    pub id: Option<Seq<char>>,
    pub name: Option<Seq<char>>,
    pub item_count: Option<u64>,
}

/// A remote policy as plain values.
pub struct PolicyView {
    pub id: Option<Seq<char>>,
    pub name: Option<Seq<char>>,
}

impl View for RemoteChunk {
    type V = ChunkView;

    open spec fn view(&self) -> ChunkView {
        ChunkView { id: opt_view(self.id), name: opt_view(self.name), item_count: self.item_count }
    }
}

impl View for RemotePolicy {
    type V = PolicyView;

    open spec fn view(&self) -> PolicyView {
        PolicyView { id: opt_view(self.id), name: opt_view(self.name) }
    }
}

/// The views of a listing of remote lists.
pub open spec fn chunk_views(s: Seq<RemoteChunk>) -> Seq<ChunkView> {
    s.map_values(|c: RemoteChunk| c@)
}

/// The views of a listing of policies.
pub open spec fn policy_views(s: Seq<RemotePolicy>) -> Seq<PolicyView> {
    s.map_values(|p: RemotePolicy| p@)
}

/// The name is there and begins with `prefix`.
pub open spec fn named_with(name: Option<Seq<char>>, prefix: Seq<char>) -> bool {
    match name {
        Some(n) => prefix.is_prefix_of(n),
        None => false,
    }
}

/// The sum of the item counts of the lists named with `prefix`; a list
/// without a count adds nothing.
pub open spec fn listed_total(chunks: Seq<ChunkView>, prefix: Seq<char>) -> int
    decreases chunks.len(),
{
    if chunks.len() == 0 {
        0
    } else {
        let c = chunks.last();
        listed_total(chunks.drop_last(), prefix) + if named_with(c.name, prefix) {
            match c.item_count {
                Some(n) => n as int,
                None => 0,
            }
        } else {
            0
        }
    }
}

/// The ids of the lists named with `prefix`, in the order listed.
pub open spec fn listed_ids(chunks: Seq<ChunkView>, prefix: Seq<char>) -> Seq<Seq<char>>
    decreases chunks.len(),
{
    if chunks.len() == 0 {
        Seq::empty()
    } else {
        let c = chunks.last();
        let r = listed_ids(chunks.drop_last(), prefix);
        if named_with(c.name, prefix) && c.id is Some {
            r.push(c.id->0)
        } else {
            r
        }
    }
}

/// The policies named with `prefix`, in the order listed.
pub open spec fn matching_policies(policies: Seq<PolicyView>, prefix: Seq<char>) -> Seq<PolicyView>
    decreases policies.len(),
{
    if policies.len() == 0 {
        Seq::empty()
    } else {
        let p = policies.last();
        let r = matching_policies(policies.drop_last(), prefix);
        if named_with(p.name, prefix) {
            r.push(p)
        } else {
            r
        }
    }
}

/// Whether `name` is there and begins with `prefix`.
fn is_named_with(name: &Option<String>, prefix: &str) -> (r: bool)
    ensures
        r == named_with(opt_view(*name), prefix@),
{
    match name {
        Some(n) => {
            let nv = crate::text::chars_of(n.as_str());
            let pv = crate::text::chars_of(prefix);
            assert(nv@.subrange(0, nv@.len() as int) =~= nv@);
            crate::text::has_prefix_at(&nv, 0, &pv)
        },
        None => false,
    }
}

/// The item total of the lists named with `prefix`.
pub fn total_items(chunks: &Vec<RemoteChunk>, prefix: &str) -> (r: u128)
    ensures
        r as int == listed_total(chunk_views(chunks@), prefix@),
{
    let mut total: u128 = 0;
    let mut i: usize = 0;
    while i < chunks.len()
        invariant
            i <= chunks.len(),
            total as int == listed_total(chunk_views(chunks@).subrange(0, i as int), prefix@),
            total <= i * 0xffff_ffff_ffff_ffffu128,
        decreases chunks.len() - i,
    {
        let c = &chunks[i];
        assert(chunk_views(chunks@).subrange(0, i + 1).drop_last() =~= chunk_views(
            chunks@,
        ).subrange(0, i as int));
        assert(chunk_views(chunks@).subrange(0, i + 1).last() == c@);
        if is_named_with(&c.name, prefix) {
            match c.item_count {
                Some(n) => {
                    total = total + n as u128;
                },
                None => {},
            }
        }
        i += 1;
    }
    assert(chunk_views(chunks@).subrange(0, i as int) =~= chunk_views(chunks@));
    total
}

/// The ids of the lists named with `prefix`.
pub fn chunk_ids(chunks: &Vec<RemoteChunk>, prefix: &str) -> (r: Vec<String>)
    ensures
        views(r@) == listed_ids(chunk_views(chunks@), prefix@),
{
    let mut ids: Vec<String> = Vec::new();
    let mut i: usize = 0;
    while i < chunks.len()
        invariant
            i <= chunks.len(),
            views(ids@) == listed_ids(chunk_views(chunks@).subrange(0, i as int), prefix@),
        decreases chunks.len() - i,
    {
        let c = &chunks[i];
        assert(chunk_views(chunks@).subrange(0, i + 1).drop_last() =~= chunk_views(
            chunks@,
        ).subrange(0, i as int));
        assert(chunk_views(chunks@).subrange(0, i + 1).last() == c@);
        if is_named_with(&c.name, prefix) {
            match &c.id {
                Some(id) => {
                    let ghost before = views(ids@);
                    ids.push(id.clone());
                    assert(views(ids@) =~= before.push(id@));
                },
                None => {},
            }
        }
        i += 1;
    }
    assert(chunk_views(chunks@).subrange(0, i as int) =~= chunk_views(chunks@));
    ids
}

/// How many policies are named with `prefix`, and the id of the first of them.
pub fn policy_match(policies: &Vec<RemotePolicy>, prefix: &str) -> (r: (usize, Option<String>))
    ensures
        r.0 == matching_policies(policy_views(policies@), prefix@).len(),
        opt_view(r.1) == if r.0 > 0 {
            matching_policies(policy_views(policies@), prefix@)[0].id
        } else {
            None
        },
{
    let mut count: usize = 0;
    let mut first: Option<String> = None;
    let mut i: usize = 0;
    while i < policies.len()
        invariant
            i <= policies.len(),
            count <= i,
            count == matching_policies(policy_views(policies@).subrange(0, i as int), prefix@).len(),
            opt_view(first) == if count > 0 {
                matching_policies(policy_views(policies@).subrange(0, i as int), prefix@)[0].id
            } else {
                None
            },
        decreases policies.len() - i,
    {
        let p = &policies[i];
        let ghost pre = policy_views(policies@).subrange(0, i as int);
        assert(policy_views(policies@).subrange(0, i + 1).drop_last() =~= pre);
        assert(policy_views(policies@).subrange(0, i + 1).last() == p@);
        if is_named_with(&p.name, prefix) {
            if count == 0 {
                first = match &p.id {
                    Some(id) => Some(id.clone()),
                    None => None,
                };
            }
            count += 1;
        }
        i += 1;
    }
    assert(policy_views(policies@).subrange(0, i as int) =~= policy_views(policies@));
    (count, first)
}


/// A list to create: its name and its domains.
pub struct ChunkBatch {
    pub name: String,
    pub items: Vec<String>,
}

/// A list to create as its name and its domains.
pub open spec fn batch_view(b: ChunkBatch) -> (Seq<char>, Seq<Seq<char>>) {
    (b.name@, views(b.items@))
}

/// The views of the lists to create.
pub open spec fn batch_views(s: Seq<ChunkBatch>) -> Seq<(Seq<char>, Seq<Seq<char>>)> {
    s.map_values(|b: ChunkBatch| batch_view(b))
}

/// The decimal digit `d`.
pub open spec fn digit(d: nat) -> char {
    seq!['0', '1', '2', '3', '4', '5', '6', '7', '8', '9'][d as int]
}

/// `n` written in decimal, without leading zeros.
pub open spec fn decimal(n: nat) -> Seq<char>
    decreases n,
{
    if n < 10 {
        seq![digit(n)]
    } else {
        decimal(n / 10).push(digit(n % 10))
    }
}

/// How many lists `n` domains fill, `CHUNK_SIZE` to a list.
pub open spec fn batch_count(n: nat) -> nat {
    (n + 999) / 1000
}

/// The domains of list `i`: the `i`-th run of `CHUNK_SIZE` domains, the last
/// run possibly shorter.
pub open spec fn batch_items(desired: Seq<Seq<char>>, i: int) -> Seq<Seq<char>> {
    let end = if (i + 1) * 1000 < desired.len() {
        (i + 1) * 1000
    } else {
        desired.len() as int
    };
    desired.subrange(i * 1000, end)
}

/// The name of list `i`: the prefix, a space, and `i` in decimal.
pub open spec fn batch_name(prefix: Seq<char>, i: nat) -> Seq<char> {
    prefix + seq![' '] + decimal(i)
}

/// The lists that hold the desired domains, in order.
pub open spec fn planned_batches(prefix: Seq<char>, desired: Seq<Seq<char>>) -> Seq<
    (Seq<char>, Seq<Seq<char>>),
> {
    Seq::new(
        batch_count(desired.len()),
        |i: int| (batch_name(prefix, i as nat), batch_items(desired, i)),
    )
}

/// The condition of a policy that blocks the domains of the list `id`.
pub open spec fn list_clause(id: Seq<char>) -> Seq<char> {
    "any(dns.domains[*] in $"@ + id + ")"@
}

/// The traffic expression of a policy over the lists `ids`: their conditions
/// joined by `or`.
pub open spec fn traffic_of(ids: Seq<Seq<char>>) -> Seq<char>
    decreases ids.len(),
{
    if ids.len() == 0 {
        Seq::empty()
    } else if ids.len() == 1 {
        list_clause(ids[0])
    } else {
        traffic_of(ids.drop_last()) + " or "@ + list_clause(ids.last())
    }
}

/// `n` in decimal.
pub fn decimal_string(n: usize) -> (r: String)
    ensures
        r@ == decimal(n as nat),
    decreases n,
{
    let digits = ['0', '1', '2', '3', '4', '5', '6', '7', '8', '9'];
    let d = digits[n % 10];
    assert(d == digit((n % 10) as nat)) by {
        assert(digits@ == seq!['0', '1', '2', '3', '4', '5', '6', '7', '8', '9']);
    }
    let last = crate::text::string_of(&[d]);
    if n < 10 {
        assert(last@ =~= decimal(n as nat));
        last
    } else {
        let mut head = decimal_string(n / 10);
        head.append(last.as_str());
        assert(head@ =~= decimal(n as nat));
        head
    }
}

/// `p` followed by `s`.
fn joined(p: &str, s: &str) -> (r: String)
    ensures
        r@ == p@ + s@,
{
    let mut r = p.to_owned();
    r.append(s);
    r
}

/// The traffic expression of a policy over the lists `ids`.
pub fn policy_traffic(ids: &Vec<String>) -> (r: String)
    ensures
        r@ == traffic_of(views(ids@)),
{
    let mut r = String::new();
    let mut i: usize = 0;
    while i < ids.len()
        invariant
            i <= ids.len(),
            r@ == traffic_of(views(ids@).subrange(0, i as int)),
        decreases ids.len() - i,
    {
        let ghost pre = views(ids@).subrange(0, i as int);
        assert(views(ids@).subrange(0, i + 1).drop_last() =~= pre);
        assert(views(ids@).subrange(0, i + 1).last() == ids@[i as int]@);
        let open_clause = joined("any(dns.domains[*] in $", ids[i].as_str());
        let clause = joined(open_clause.as_str(), ")");
        if i == 0 {
            r = clause;
            assert(views(ids@).subrange(0, 1)[0] == ids@[0]@);
        } else {
            let with_or = joined(r.as_str(), " or ");
            r = joined(with_or.as_str(), clause.as_str());
        }
        i += 1;
    }
    assert(views(ids@).subrange(0, i as int) =~= views(ids@));
    r
}

/// The domains from `from` up to, not including, `to`.
fn copy_strings(v: &Vec<String>, from: usize, to: usize) -> (r: Vec<String>)
    requires
        from <= to <= v.len(),
    ensures
        views(r@) == views(v@).subrange(from as int, to as int),
{
    let mut r: Vec<String> = Vec::new();
    let mut i: usize = from;
    while i < to
        invariant
            from <= i <= to <= v.len(),
            views(r@) == views(v@).subrange(from as int, i as int),
        decreases to - i,
    {
        let ghost before = views(r@);
        r.push(v[i].clone());
        assert(views(r@) =~= before.push(v@[i as int]@));
        assert(views(v@).subrange(from as int, i + 1) =~= views(v@).subrange(from as int, i as int).push(v@[i as int]@));
        i += 1;
    }
    r
}

/// The desired domains cut into lists of at most `CHUNK_SIZE`, in order, each
/// named by the prefix and its index.
pub fn plan_batches(prefix: &str, desired: &Vec<String>) -> (r: Vec<ChunkBatch>)
    ensures
        batch_views(r@) == planned_batches(prefix@, views(desired@)),
{
    let n = desired.len();
    let mut r: Vec<ChunkBatch> = Vec::new();
    let count: usize = n / CHUNK_SIZE + if n % CHUNK_SIZE > 0 {
        1
    } else {
        0
    };
    assert(count == batch_count(n as nat));
    let mut i: usize = 0;
    while i < count
        invariant
            n == desired.len(),
            count == batch_count(n as nat),
            i <= count,
            batch_views(r@) == planned_batches(prefix@, views(desired@)).subrange(0, i as int),
        decreases count - i,
    {
        assert(i * 1000 < n);
        let start = i * CHUNK_SIZE;
        let end = if n - start > CHUNK_SIZE {
            start + CHUNK_SIZE
        } else {
            n
        };
        let items = copy_strings(desired, start, end);
        let num = decimal_string(i);
        let named = joined(prefix, " ");
        let name = joined(named.as_str(), num.as_str());
        let ghost before = batch_views(r@);
        let b = ChunkBatch { name, items };
        proof {
            reveal_strlit(" ");
            assert(name@ =~= batch_name(prefix@, i as nat));
            assert(views(items@) =~= batch_items(views(desired@), i as int));
        }
        assert(batch_view(b) == planned_batches(prefix@, views(desired@))[i as int]);
        r.push(b);
        assert(batch_views(r@) =~= before.push(batch_view(b)));
        assert(planned_batches(prefix@, views(desired@)).subrange(0, i + 1) =~= planned_batches(
            prefix@,
            views(desired@),
        ).subrange(0, i as int).push(planned_batches(prefix@, views(desired@))[i as int]));
        i += 1;
    }
    assert(planned_batches(prefix@, views(desired@)).subrange(0, i as int) =~= planned_batches(
        prefix@,
        views(desired@),
    ));
    r
}


/// Where a pass stands: which answer of the remote store it waits for.
#[derive(Clone, Copy, PartialEq, Eq, Structural, Debug)]
pub enum Phase {
    /// Waits for the listing of the remote lists.
    Fetching,
    /// Waits for the listing of the policies, to delete the old one.
    ClearingPolicy,
    /// Waits for the old policy to be deleted.
    DeletingPolicy,
    /// Waits for the old lists to be deleted.
    DeletingChunks,
    /// Waits for the new lists to be created.
    Creating,
    /// Waits for the listing of the policies, to point one at the new lists.
    Verifying,
    /// Waits for the policy to be created or updated.
    Writing,
    /// The pass is over.
    Done,
}

/// How a pass ended.
#[derive(Clone, Copy, PartialEq, Eq, Structural, Debug)]
pub enum PassOutcome {
    /// The remote lists already held as many domains as desired; nothing was changed.
    UpToDate,
    /// Every list was recreated and the policy points at them.
    Converged { created: usize },
    /// Fewer lists were created than requested: the remote blocklist is incomplete.
    Drifted { created: usize, expected: usize },
    /// More than one policy carries the name; none was changed.
    PolicyConflict { found: usize },
}

/// What the remote store is asked to do next.
pub enum SyncAction {
    /// List all remote lists.
    ListChunks,
    /// List all policies.
    ListPolicies,
    /// Delete the policy `id`.
    DeletePolicy { id: String },
    /// Delete these lists, all of them before anything else.
    DeleteChunks { ids: Vec<String> },
    /// Create these lists.
    CreateChunks { batches: Vec<ChunkBatch> },
    /// Create a blocking policy.
    CreatePolicy { name: String, traffic: String },
    /// Point the policy `id` at new lists.
    UpdatePolicy { id: String, name: String, traffic: String },
    /// The pass is over.
    Finish { outcome: PassOutcome },
    /// The event was not one the pass waits for; nothing to do.
    Ignore,
}

/// What the remote store answered.
pub enum SyncEvent {
    /// The remote lists; `None` where the answer held no list of them.
    ChunksListed { chunks: Option<Vec<RemoteChunk>> },
    /// The policies; `None` where the answer held no list of them.
    PoliciesListed { policies: Option<Vec<RemotePolicy>> },
    PolicyDeleted,
    ChunksDeleted,
    /// One entry per requested list, in order: its id where it was created.
    ChunksCreated { ids: Vec<Option<String>> },
    PolicyWritten,
}

/// An action as plain values.
pub enum ActionView {
    ListChunks,
    ListPolicies,
    DeletePolicy { id: Seq<char> },
    DeleteChunks { ids: Seq<Seq<char>> },
    CreateChunks { batches: Seq<(Seq<char>, Seq<Seq<char>>)> },
    CreatePolicy { name: Seq<char>, traffic: Seq<char> },
    UpdatePolicy { id: Seq<char>, name: Seq<char>, traffic: Seq<char> },
    Finish { outcome: PassOutcome },
    Ignore,
}

/// An event as plain values.
pub enum EventView {
    ChunksListed { chunks: Option<Seq<ChunkView>> },
    PoliciesListed { policies: Option<Seq<PolicyView>> },
    PolicyDeleted,
    ChunksDeleted,
    ChunksCreated { ids: Seq<Option<Seq<char>>> },
    PolicyWritten,
}

impl View for SyncAction {
    type V = ActionView;

    open spec fn view(&self) -> ActionView {
        match self {
            SyncAction::ListChunks => ActionView::ListChunks,
            SyncAction::ListPolicies => ActionView::ListPolicies,
            SyncAction::DeletePolicy { id } => ActionView::DeletePolicy { id: id@ },
            SyncAction::DeleteChunks { ids } => ActionView::DeleteChunks { ids: views(ids@) },
            SyncAction::CreateChunks { batches } => ActionView::CreateChunks {
                batches: batch_views(batches@),
            },
            SyncAction::CreatePolicy { name, traffic } => ActionView::CreatePolicy {
                name: name@,
                traffic: traffic@,
            },
            SyncAction::UpdatePolicy { id, name, traffic } => ActionView::UpdatePolicy {
                id: id@,
                name: name@,
                traffic: traffic@,
            },
            SyncAction::Finish { outcome } => ActionView::Finish { outcome: *outcome },
            SyncAction::Ignore => ActionView::Ignore,
        }
    }
}

impl View for SyncEvent {
    type V = EventView;

    open spec fn view(&self) -> EventView {
        match self {
            SyncEvent::ChunksListed { chunks } => EventView::ChunksListed {
                chunks: match chunks {
                    Some(c) => Some(chunk_views(c@)),
                    None => None,
                },
            },
            SyncEvent::PoliciesListed { policies } => EventView::PoliciesListed {
                policies: match policies {
                    Some(p) => Some(policy_views(p@)),
                    None => None,
                },
            },
            SyncEvent::PolicyDeleted => EventView::PolicyDeleted,
            SyncEvent::ChunksDeleted => EventView::ChunksDeleted,
            SyncEvent::ChunksCreated { ids } => EventView::ChunksCreated {
                ids: ids@.map_values(|i: Option<String>| opt_view(i)),
            },
            SyncEvent::PolicyWritten => EventView::PolicyWritten,
        }
    }
}

/// One reconciliation pass.
pub struct SyncPass {
    pub desired: Vec<String>,
    pub chunk_prefix: String,
    pub policy_name: String,
    pub phase: Phase,
    pub stale: Vec<String>,
    pub created: Vec<String>,
    pub expected: usize,
    pub outcome: Option<PassOutcome>,
}

/// A pass as plain values.
pub struct PassView {
    /// The sorted desired domains.
    pub desired: Seq<Seq<char>>,
    /// The prefix of the names of the lists this pass owns.
    pub chunk_prefix: Seq<char>,
    /// The name of the policy, also the prefix it is found by.
    pub policy_name: Seq<char>,
    pub phase: Phase,
    /// The ids of the lists found at the start, to be deleted.
    pub stale: Seq<Seq<char>>,
    /// The ids of the lists created.
    pub created: Seq<Seq<char>>,
    /// How many lists were requested.
    pub expected: nat,
    pub outcome: Option<PassOutcome>,
}

impl View for SyncPass {
    type V = PassView;

    open spec fn view(&self) -> PassView {
        PassView {
            desired: views(self.desired@),
            chunk_prefix: self.chunk_prefix@,
            policy_name: self.policy_name@,
            phase: self.phase,
            stale: views(self.stale@),
            created: views(self.created@),
            expected: self.expected as nat,
            outcome: self.outcome,
        }
    }
}

/// The ids of the lists that were created.
pub open spec fn present_ids(ids: Seq<Option<Seq<char>>>) -> Seq<Seq<char>>
    decreases ids.len(),
{
    if ids.len() == 0 {
        Seq::empty()
    } else {
        let r = present_ids(ids.drop_last());
        match ids.last() {
            Some(id) => r.push(id),
            None => r,
        }
    }
}

/// How a pass that created `created` of `expected` lists, and found `found`
/// policies, ends.
pub open spec fn outcome_of(created: nat, expected: nat, found: nat) -> PassOutcome {
    if created != expected {
        PassOutcome::Drifted { created: created as usize, expected: expected as usize }
    } else if found > 1 {
        PassOutcome::PolicyConflict { found: found as usize }
    } else {
        PassOutcome::Converged { created: created as usize }
    }
}

/// A listing, or nothing where the answer held none.
pub open spec fn listing_or_empty<T>(l: Option<Seq<T>>) -> Seq<T> {
    match l {
        Some(s) => s,
        None => Seq::empty(),
    }
}

/// The transition of a pass on an event: the next state and the action.
pub open spec fn next(m: PassView, e: EventView) -> (PassView, ActionView) {
    if m.phase == Phase::Done {
        (
            m,
            match m.outcome {
                Some(o) => ActionView::Finish { outcome: o },
                None => ActionView::Ignore,
            },
        )
    } else {
        match e {
            EventView::ChunksListed { chunks } => {
                if m.phase != Phase::Fetching {
                    (m, ActionView::Ignore)
                } else if chunks is Some && listed_total(chunks->0, m.chunk_prefix)
                    == m.desired.len() {
                    (
                        PassView {
                            phase: Phase::Done,
                            outcome: Some(PassOutcome::UpToDate),
                            ..m
                        },
                        ActionView::Finish { outcome: PassOutcome::UpToDate },
                    )
                } else {
                    (
                        PassView {
                            phase: Phase::ClearingPolicy,
                            stale: listed_ids(listing_or_empty(chunks), m.chunk_prefix),
                            ..m
                        },
                        ActionView::ListPolicies,
                    )
                }
            },
            EventView::PoliciesListed { policies } => {
                let found = matching_policies(listing_or_empty(policies), m.policy_name);
                if m.phase == Phase::ClearingPolicy {
                    if found.len() > 0 && found[0].id is Some {
                        (
                            PassView { phase: Phase::DeletingPolicy, ..m },
                            ActionView::DeletePolicy { id: found[0].id->0 },
                        )
                    } else {
                        (
                            PassView { phase: Phase::DeletingChunks, ..m },
                            ActionView::DeleteChunks { ids: m.stale },
                        )
                    }
                } else if m.phase == Phase::Verifying {
                    let outcome = outcome_of(m.created.len(), m.expected, found.len());
                    let traffic = traffic_of(m.created);
                    if found.len() == 0 {
                        (
                            PassView { phase: Phase::Writing, outcome: Some(outcome), ..m },
                            ActionView::CreatePolicy { name: m.policy_name, traffic },
                        )
                    } else if found.len() == 1 && found[0].id is Some {
                        (
                            PassView { phase: Phase::Writing, outcome: Some(outcome), ..m },
                            ActionView::UpdatePolicy {
                                id: found[0].id->0,
                                name: m.policy_name,
                                traffic,
                            },
                        )
                    } else {
                        (
                            PassView { phase: Phase::Done, outcome: Some(outcome), ..m },
                            ActionView::Finish { outcome },
                        )
                    }
                } else {
                    (m, ActionView::Ignore)
                }
            },
            EventView::PolicyDeleted => {
                if m.phase == Phase::DeletingPolicy {
                    (
                        PassView { phase: Phase::DeletingChunks, ..m },
                        ActionView::DeleteChunks { ids: m.stale },
                    )
                } else {
                    (m, ActionView::Ignore)
                }
            },
            EventView::ChunksDeleted => {
                if m.phase == Phase::DeletingChunks {
                    let batches = planned_batches(m.chunk_prefix, m.desired);
                    (
                        PassView { phase: Phase::Creating, expected: batches.len(), ..m },
                        ActionView::CreateChunks { batches },
                    )
                } else {
                    (m, ActionView::Ignore)
                }
            },
            EventView::ChunksCreated { ids } => {
                if m.phase == Phase::Creating {
                    (
                        PassView { phase: Phase::Verifying, created: present_ids(ids), ..m },
                        ActionView::ListPolicies,
                    )
                } else {
                    (m, ActionView::Ignore)
                }
            },
            EventView::PolicyWritten => {
                if m.phase == Phase::Writing {
                    (
                        PassView { phase: Phase::Done, ..m },
                        match m.outcome {
                            Some(o) => ActionView::Finish { outcome: o },
                            None => ActionView::Ignore,
                        },
                    )
                } else {
                    (m, ActionView::Ignore)
                }
            },
        }
    }
}


/// What a person reads about how a pass ended.
pub open spec fn outcome_message(o: PassOutcome) -> Seq<char> {
    match o {
        PassOutcome::UpToDate => "No need to update."@,
        PassOutcome::Converged { created } => "Done: "@ + decimal(created as nat) + " lists created."@,
        PassOutcome::Drifted { created, expected } => "Not all lists are added, "@ + decimal(
            created as nat,
        ) + "/"@ + decimal(expected as nat),
        PassOutcome::PolicyConflict { found } => "More than one firewall policy found: "@
            + decimal(found as nat),
    }
}

impl PassOutcome {
    /// Whether the pass left the remote store as desired.
    pub fn is_success(&self) -> (r: bool)
        ensures
            r == (*self is UpToDate || *self is Converged),
    {
        match self {
            PassOutcome::UpToDate => true,
            PassOutcome::Converged { .. } => true,
            _ => false,
        }
    }

    /// What a person reads about how the pass ended.
    pub fn message(&self) -> (r: String)
        ensures
            r@ == outcome_message(*self),
    {
        match self {
            PassOutcome::UpToDate => "No need to update.".to_owned(),
            PassOutcome::Converged { created } => {
                let head = joined("Done: ", decimal_string(*created).as_str());
                joined(head.as_str(), " lists created.")
            },
            PassOutcome::Drifted { created, expected } => {
                let head = joined("Not all lists are added, ", decimal_string(*created).as_str());
                let with_slash = joined(head.as_str(), "/");
                joined(with_slash.as_str(), decimal_string(*expected).as_str())
            },
            PassOutcome::PolicyConflict { found } => joined(
                "More than one firewall policy found: ",
                decimal_string(*found).as_str(),
            ),
        }
    }
}

/// The ids of the lists that were created, in order.
pub fn created_ids(ids: &Vec<Option<String>>) -> (r: Vec<String>)
    ensures
        views(r@) == present_ids(ids@.map_values(|i: Option<String>| opt_view(i))),
{
    let ghost all = ids@.map_values(|i: Option<String>| opt_view(i));
    let mut r: Vec<String> = Vec::new();
    let mut i: usize = 0;
    while i < ids.len()
        invariant
            i <= ids.len(),
            all == ids@.map_values(|i: Option<String>| opt_view(i)),
            views(r@) == present_ids(all.subrange(0, i as int)),
        decreases ids.len() - i,
    {
        assert(all.subrange(0, i + 1).drop_last() =~= all.subrange(0, i as int));
        assert(all.subrange(0, i + 1).last() == opt_view(ids@[i as int]));
        match &ids[i] {
            Some(id) => {
                let ghost before = views(r@);
                r.push(id.clone());
                assert(views(r@) =~= before.push(id@));
            },
            None => {},
        }
        i += 1;
    }
    assert(all.subrange(0, i as int) =~= all);
    r
}

impl SyncPass {
    /// A pass that brings the lists named with `chunk_prefix`, and the policy
    /// named `policy_name`, in line with `desired`. It waits for the listing of
    /// the remote lists: its first action is `SyncAction::ListChunks`.
    pub fn new(desired: Vec<String>, chunk_prefix: String, policy_name: String) -> (r: SyncPass)
        ensures
            r@ == (PassView {
                desired: views(desired@),
                chunk_prefix: chunk_prefix@,
                policy_name: policy_name@,
                phase: Phase::Fetching,
                stale: Seq::empty(),
                created: Seq::empty(),
                expected: 0,
                outcome: None,
            }),
    {
        let r = SyncPass {
            desired,
            chunk_prefix,
            policy_name,
            phase: Phase::Fetching,
            stale: Vec::new(),
            created: Vec::new(),
            expected: 0,
            outcome: None,
        };
        assert(views(r.stale@) =~= Seq::empty());
        assert(views(r.created@) =~= Seq::empty());
        r
    }

    fn finish(&self) -> (a: SyncAction)
        ensures
            a@ == match self.outcome {
                Some(o) => ActionView::Finish { outcome: o },
                None => ActionView::Ignore,
            },
    {
        match self.outcome {
            Some(o) => SyncAction::Finish { outcome: o },
            None => SyncAction::Ignore,
        }
    }

    fn delete_stale(&self) -> (a: SyncAction)
        ensures
            a@ == (ActionView::DeleteChunks { ids: views(self.stale@) }),
    {
        let ids = copy_strings(&self.stale, 0, self.stale.len());
        assert(views(self.stale@).subrange(0, self.stale.len() as int) =~= views(self.stale@));
        SyncAction::DeleteChunks { ids }
    }

    /// Takes the answer of the remote store and says what to ask of it next.
    pub fn step(&mut self, event: SyncEvent) -> (a: SyncAction)
        ensures
            (final(self)@, a@) == next(old(self)@, event@),
    {
        if self.phase == Phase::Done {
            return self.finish();
        }
        match event {
            SyncEvent::ChunksListed { chunks } => {
                if self.phase != Phase::Fetching {
                    return SyncAction::Ignore;
                }
                let have = chunks.is_some();
                let listing = match chunks {
                    Some(c) => c,
                    None => Vec::new(),
                };
                proof {
                    if !have {
                        assert(chunk_views(listing@) =~= Seq::empty());
                    }
                }
                if have && total_items(&listing, self.chunk_prefix.as_str()) == self.desired.len() as u128 {
                    self.phase = Phase::Done;
                    self.outcome = Some(PassOutcome::UpToDate);
                    SyncAction::Finish { outcome: PassOutcome::UpToDate }
                } else {
                    self.stale = chunk_ids(&listing, self.chunk_prefix.as_str());
                    self.phase = Phase::ClearingPolicy;
                    SyncAction::ListPolicies
                }
            },
            SyncEvent::PoliciesListed { policies } => {
                let have = policies.is_some();
                let listing = match policies {
                    Some(p) => p,
                    None => Vec::new(),
                };
                proof {
                    if !have {
                        assert(policy_views(listing@) =~= Seq::empty());
                    }
                }
                if self.phase == Phase::ClearingPolicy {
                    let (_, first) = policy_match(&listing, self.policy_name.as_str());
                    match first {
                        Some(id) => {
                            self.phase = Phase::DeletingPolicy;
                            SyncAction::DeletePolicy { id }
                        },
                        None => {
                            self.phase = Phase::DeletingChunks;
                            self.delete_stale()
                        },
                    }
                } else if self.phase == Phase::Verifying {
                    let (found, first) = policy_match(&listing, self.policy_name.as_str());
                    let created = self.created.len();
                    let outcome = if created != self.expected {
                        PassOutcome::Drifted { created, expected: self.expected }
                    } else if found > 1 {
                        PassOutcome::PolicyConflict { found }
                    } else {
                        PassOutcome::Converged { created }
                    };
                    self.outcome = Some(outcome);
                    if found == 0 {
                        self.phase = Phase::Writing;
                        SyncAction::CreatePolicy {
                            name: self.policy_name.clone(),
                            traffic: policy_traffic(&self.created),
                        }
                    } else if found == 1 {
                        match first {
                            Some(id) => {
                                self.phase = Phase::Writing;
                                SyncAction::UpdatePolicy {
                                    id,
                                    name: self.policy_name.clone(),
                                    traffic: policy_traffic(&self.created),
                                }
                            },
                            None => {
                                self.phase = Phase::Done;
                                SyncAction::Finish { outcome }
                            },
                        }
                    } else {
                        self.phase = Phase::Done;
                        SyncAction::Finish { outcome }
                    }
                } else {
                    SyncAction::Ignore
                }
            },
            SyncEvent::PolicyDeleted => {
                if self.phase == Phase::DeletingPolicy {
                    self.phase = Phase::DeletingChunks;
                    self.delete_stale()
                } else {
                    SyncAction::Ignore
                }
            },
            SyncEvent::ChunksDeleted => {
                if self.phase == Phase::DeletingChunks {
                    let batches = plan_batches(self.chunk_prefix.as_str(), &self.desired);
                    self.expected = batches.len();
                    self.phase = Phase::Creating;
                    SyncAction::CreateChunks { batches }
                } else {
                    SyncAction::Ignore
                }
            },
            SyncEvent::ChunksCreated { ids } => {
                if self.phase == Phase::Creating {
                    self.created = created_ids(&ids);
                    self.phase = Phase::Verifying;
                    SyncAction::ListPolicies
                } else {
                    SyncAction::Ignore
                }
            },
            SyncEvent::PolicyWritten => {
                if self.phase == Phase::Writing {
                    self.phase = Phase::Done;
                    self.finish()
                } else {
                    SyncAction::Ignore
                }
            },
        }
    }
}


/// When the lists named with the prefix already hold as many items as the
/// desired list, the pass ends at once as up to date; the ended pass answers
/// every later event with the same end, so no list or policy is deleted or
/// created.
pub proof fn lemma_up_to_date_is_noop(m: PassView, chunks: Seq<ChunkView>)
    requires
        m.phase == Phase::Fetching,
        listed_total(chunks, m.chunk_prefix) == m.desired.len(),
    ensures
        ({
            let (m1, a1) = next(m, EventView::ChunksListed { chunks: Some(chunks) });
            &&& a1 == ActionView::Finish { outcome: PassOutcome::UpToDate }
            &&& m1.phase == Phase::Done
            &&& forall|e: EventView|
                #[trigger] next(m1, e) == (
                    m1,
                    ActionView::Finish { outcome: PassOutcome::UpToDate },
                )
        }),
{
}

/// The planned lists cut the desired list in order: every list but the last
/// holds `CHUNK_SIZE` domains, the last the rest, and domain `k` is item
/// `k % CHUNK_SIZE` of list `k / CHUNK_SIZE`.
pub proof fn lemma_batches_partition(prefix: Seq<char>, desired: Seq<Seq<char>>)
    ensures
        planned_batches(prefix, desired).len() == batch_count(desired.len()),
        forall|i: int|
            0 <= i < batch_count(desired.len()) ==> #[trigger] planned_batches(
                prefix,
                desired,
            )[i].1.len() == if (i + 1) * 1000 <= desired.len() {
                1000
            } else {
                desired.len() - i * 1000
            },
        forall|i: int|
            0 <= i < batch_count(desired.len()) ==> #[trigger] planned_batches(
                prefix,
                desired,
            )[i].1.len() > 0,
        forall|k: int|
            0 <= k < desired.len() ==> k / 1000 < batch_count(desired.len()) && #[trigger] desired[k]
                == planned_batches(prefix, desired)[k / 1000].1[k % 1000],
{
    let n = desired.len();
    assert forall|i: int| 0 <= i < batch_count(n) implies #[trigger] planned_batches(
        prefix,
        desired,
    )[i].1.len() == (if (i + 1) * 1000 <= n {
        1000
    } else {
        n - i * 1000
    }) && planned_batches(prefix, desired)[i].1.len() > 0 by {
        assert(i * 1000 < n) by (nonlinear_arith)
            requires
                0 <= i < (n + 999) / 1000,
        ;
    }
    assert forall|k: int| 0 <= k < n implies k / 1000 < batch_count(n) && #[trigger] desired[k]
        == planned_batches(prefix, desired)[k / 1000].1[k % 1000] by {
        let i = k / 1000;
        assert(i < batch_count(n)) by (nonlinear_arith)
            requires
                0 <= k < n,
                i == k / 1000,
        ;
        assert(i * 1000 <= k < (i + 1) * 1000) by (nonlinear_arith)
            requires
                0 <= k,
                i == k / 1000,
        ;
        assert(k % 1000 == k - i * 1000);
    }
}

/// A pass that created fewer or more lists than it requested ends as
/// drifted, with both counts, whatever the policies are.
pub proof fn lemma_partial_creation_drifts(
    m: PassView,
    ids: Seq<Option<Seq<char>>>,
    policies: Option<Seq<PolicyView>>,
)
    requires
        m.phase == Phase::Creating,
        present_ids(ids).len() != m.expected,
    ensures
        ({
            let drifted = PassOutcome::Drifted {
                created: present_ids(ids).len() as usize,
                expected: m.expected as usize,
            };
            let (m1, a1) = next(m, EventView::ChunksCreated { ids });
            let (m2, a2) = next(m1, EventView::PoliciesListed { policies });
            &&& a1 == ActionView::ListPolicies
            &&& m2.outcome == Some(drifted)
            &&& a2 is Finish ==> a2 == ActionView::Finish { outcome: drifted }
            &&& !(a2 is Finish) ==> (a2 is CreatePolicy || a2 is UpdatePolicy) && next(
                m2,
                EventView::PolicyWritten,
            ).1 == ActionView::Finish { outcome: drifted }
        }),
{
}

} // verus!
