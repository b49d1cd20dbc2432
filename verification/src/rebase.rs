//! The rebase engine: replays the commits of one history, oldest first,
//! onto another commit, one step at a time, and repoints the branch when
//! the caller finishes. Only picking is offered: every operation is
//! replayed as it stands, in the order of the history, and none can be
//! skipped.

use crate::bytes::bytes_copy;
use crate::digest::Digest;
use crate::encode::digest_of;
use crate::error::VcsError;
use crate::history::{commit_at, is_commit, is_history, lemma_history_unique};
use crate::object::{digest_views, Commit, CommitView, Object, ObjectView, Signature, SignatureView};
use crate::refs::{head_name, resolve_spec, Reference, ReferenceView};
use crate::repo::{Repository, RepositoryView};
use crate::store::{can_store, clashes, stored};
use vstd::prelude::*;

verus! {

/// What an operation does with its commit. Picking is all there is.
#[derive(Clone, Copy, Debug, PartialEq, Eq, Structural)]
pub enum OperationKind {
    Pick,
}

/// One step of a rebase: replay the commit `source` onto the result of the
/// step before.
#[derive(Clone, Copy, Debug, PartialEq, Eq)]
pub struct Operation {
    pub kind: OperationKind,
    pub source: Digest,
}

/// Where a session stands.
#[derive(Clone, Copy, Debug, PartialEq, Eq, Structural)]
pub enum SessionState {
    Created,
    Running,
    Finished,
    Aborted,
}

/// The first position from `i` on of `h1` whose commit occurs in `h2`; the
/// length of `h1` if there is none.
pub open spec fn first_shared_from(h1: Seq<Seq<u8>>, h2: Seq<Seq<u8>>, i: int) -> int
    decreases h1.len() - i,
{
    if i < 0 || i >= h1.len() {
        h1.len() as int
    } else if h2.contains(h1[i]) {
        i
    } else {
        first_shared_from(h1, h2, i + 1)
    }
}

/// The position in `h1` of the merge base: the first commit of `h1`, which
/// runs from the tip back, that `h2` holds too.
pub open spec fn first_shared(h1: Seq<Seq<u8>>, h2: Seq<Seq<u8>>) -> int {
    first_shared_from(h1, h2, 0)
}

/// The commits to replay: those of `h1` before the merge base, oldest
/// first.
pub open spec fn replay_range(h1: Seq<Seq<u8>>, h2: Seq<Seq<u8>>) -> Seq<Seq<u8>> {
    let k = first_shared(h1, h2);
    Seq::new(k as nat, |i: int| h1[k - 1 - i])
}

/// Where the merge base stands: nothing before it is shared, and it is.
pub proof fn lemma_first_shared(h1: Seq<Seq<u8>>, h2: Seq<Seq<u8>>, i: int)
    requires
        0 <= i <= h1.len(),
    ensures
        i <= first_shared_from(h1, h2, i) <= h1.len(),
        forall|j: int| i <= j < first_shared_from(h1, h2, i) ==> !h2.contains(#[trigger] h1[j]),
        first_shared_from(h1, h2, i) < h1.len() ==> h2.contains(h1[first_shared_from(h1, h2, i)]),
    decreases h1.len() - i,
{
    if i < h1.len() && !h2.contains(h1[i]) {
        lemma_first_shared(h1, h2, i + 1);
    }
}

/// The commits to replay are those that the tip's history has and the
/// destination's has not, in the order in which they were made: the first
/// follows the merge base, and each other one follows the one before it.
pub proof fn lemma_replay_range(
    m: Map<Seq<u8>, ObjectView>,
    tip: Seq<u8>,
    h1: Seq<Seq<u8>>,
    h2: Seq<Seq<u8>>,
)
    requires
        is_history(m, tip, h1),
        first_shared(h1, h2) < h1.len(),
    ensures
        replay_range(h1, h2).len() == first_shared(h1, h2),
        forall|i: int|
            0 <= i < replay_range(h1, h2).len() ==> {
                &&& h1.contains(#[trigger] replay_range(h1, h2)[i])
                &&& !h2.contains(replay_range(h1, h2)[i])
                &&& is_commit(m, replay_range(h1, h2)[i])
                &&& commit_at(m, replay_range(h1, h2)[i]).parents.len() > 0
                &&& commit_at(m, replay_range(h1, h2)[i]).parents[0] == if i == 0 {
                    h1[first_shared(h1, h2)]
                } else {
                    replay_range(h1, h2)[i - 1]
                }
            },
        h2.contains(h1[first_shared(h1, h2)]),
{
    let k = first_shared(h1, h2);
    let range = replay_range(h1, h2);
    lemma_first_shared(h1, h2, 0);
    assert forall|i: int| 0 <= i < range.len() implies {
        &&& h1.contains(#[trigger] range[i])
        &&& !h2.contains(range[i])
        &&& is_commit(m, range[i])
        &&& commit_at(m, range[i]).parents.len() > 0
        &&& commit_at(m, range[i]).parents[0] == if i == 0 {
            h1[k]
        } else {
            range[i - 1]
        }
    } by {
        let j = k - 1 - i;
        assert(range[i] == h1[j]);
        assert(is_commit(m, h1[j]));
        assert(commit_at(m, h1[j]).parents[0] == h1[j + 1]);
        if i > 0 {
            assert(range[i - 1] == h1[j + 1]);
        }
    }
}

/// The history of `tip`, where it has one.
pub open spec fn history_of(m: Map<Seq<u8>, ObjectView>, tip: Seq<u8>) -> Seq<Seq<u8>> {
    choose|h: Seq<Seq<u8>>| is_history(m, tip, h)
}

/// The reference that a rebase of `name` repoints in the end: the branch
/// that `HEAD` names if `name` is `HEAD` and names one, else `name`.
pub open spec fn rebased_branch(refs: Map<Seq<u8>, ReferenceView>, name: Seq<u8>) -> Seq<u8> {
    if name == head_name() && refs.contains_key(name) {
        match refs[name] {
            ReferenceView::Symbolic(branch) => branch,
            ReferenceView::Direct(_) => name,
        }
    } else {
        name
    }
}

pub struct SessionView {
    pub state: SessionState,
    /// The reference to repoint in the end.
    pub branch: Seq<u8>,
    /// The commit that the first operation is replayed onto.
    pub onto: Seq<u8>,
    /// The commits to replay, oldest first.
    pub operations: Seq<Seq<u8>>,
    /// How many operations have been handed out.
    pub handed: nat,
    /// The commits produced so far, one for each operation applied.
    pub produced: Seq<Seq<u8>>,
}

impl SessionView {
    /// An operation was handed out and has not been applied yet.
    pub open spec fn pending(self) -> bool {
        self.state == SessionState::Running && self.handed == self.produced.len() + 1
    }

    /// The commit that the next new commit follows: the one produced last,
    /// or the destination if none was.
    pub open spec fn cursor(self) -> Seq<u8> {
        if self.produced.len() == 0 {
            self.onto
        } else {
            self.produced.last()
        }
    }

    /// The session is over.
    pub open spec fn terminal(self) -> bool {
        self.state == SessionState::Finished || self.state == SessionState::Aborted
    }

    /// At most one operation is handed out and not applied; a new session
    /// has handed out none, and one that is over holds nothing any more.
    pub open spec fn valid(self) -> bool {
        &&& self.produced.len() <= self.handed <= self.produced.len() + 1
        &&& self.handed <= self.operations.len()
        &&& self.state == SessionState::Created ==> self.handed == 0
        &&& self.terminal() ==> self.operations.len() == 0
    }

    /// The session with its transient state discarded, in state `state`.
    pub open spec fn closed(self, state: SessionState) -> SessionView {
        SessionView {
            state,
            operations: Seq::empty(),
            handed: 0,
            produced: Seq::empty(),
            ..self
        }
    }
}

/// The session that `start` creates, or the error it fails with: that of
/// resolving `name`; `NotFound` if the tip, the destination or the commit to
/// replay onto is not a commit held; `UnrelatedHistories` if the histories
/// of tip and destination share no commit.
pub open spec fn start_spec(
    v: RepositoryView,
    name: Seq<u8>,
    destination: Seq<u8>,
    onto: Option<Seq<u8>>,
) -> Result<SessionView, VcsError> {
    match resolve_spec(v.refs, name) {
        Err(e) => Err(e),
        Ok(tip) => {
            let target = match onto {
                Some(o) => o,
                None => destination,
            };
            if !is_commit(v.objects, tip) || !is_commit(v.objects, destination) || !is_commit(
                v.objects,
                target,
            ) {
                Err(VcsError::NotFound)
            } else {
                let h1 = history_of(v.objects, tip);
                let h2 = history_of(v.objects, destination);
                if first_shared(h1, h2) >= h1.len() {
                    Err(VcsError::UnrelatedHistories)
                } else {
                    Ok(
                        SessionView {
                            state: SessionState::Created,
                            branch: rebased_branch(v.refs, name),
                            onto: target,
                            operations: replay_range(h1, h2),
                            handed: 0,
                            produced: Seq::empty(),
                        },
                    )
                }
            }
        },
    }
}

/// What `next` makes of a session, and the commit of the operation it
/// hands out. A session that is over hands out nothing. Otherwise the
/// session is running; the operation handed out last is handed out again
/// if it has not been applied, else the one after it, if there is one.
pub open spec fn next_spec(s: SessionView) -> (SessionView, Option<Seq<u8>>) {
    if s.terminal() {
        (s, None)
    } else {
        let running = SessionView { state: SessionState::Running, ..s };
        if s.handed > s.produced.len() {
            (running, Some(s.operations[s.handed - 1]))
        } else if s.handed < s.operations.len() {
            (SessionView { handed: s.handed + 1, ..running }, Some(s.operations[s.handed as int]))
        } else {
            (running, None)
        }
    }
}

/// The commit that replays `source` onto `parent`: the tree and the author
/// of `source`, `parent` as the one parent, the committer given, and the
/// message given or else that of `source`.
pub open spec fn replayed(
    source: CommitView,
    parent: Seq<u8>,
    committer: SignatureView,
    message: Option<Seq<u8>>,
) -> CommitView {
    CommitView {
        tree: source.tree,
        parents: seq![parent],
        author: source.author,
        committer,
        message: match message {
            Some(m) => m,
            None => source.message,
        },
    }
}

/// The commit that applying the current operation creates, or the error
/// that stands in the way: `InvalidState` if no operation is pending,
/// `NotFound` if its commit is not held.
pub open spec fn plan_spec(
    s: SessionView,
    objects: Map<Seq<u8>, ObjectView>,
    message: Option<Seq<u8>>,
    committer: SignatureView,
) -> Result<CommitView, VcsError> {
    if !s.pending() || s.handed > s.operations.len() {
        Err(VcsError::InvalidState)
    } else {
        let source = s.operations[s.handed - 1];
        if !is_commit(objects, source) {
            Err(VcsError::NotFound)
        } else {
            Ok(replayed(commit_at(objects, source), s.cursor(), committer, message))
        }
    }
}

/// The commit that applying the current operation creates, or the error
/// it fails with: that of the plan; `NotFound` if the cursor is not a
/// commit held; `StorageIO` if the commit planned cannot be stored.
pub open spec fn apply_result(
    s: SessionView,
    objects: Map<Seq<u8>, ObjectView>,
    message: Option<Seq<u8>>,
    committer: SignatureView,
) -> Result<CommitView, VcsError> {
    match plan_spec(s, objects, message, committer) {
        Err(e) => Err(e),
        Ok(c) => if !is_commit(objects, s.cursor()) {
            Err(VcsError::NotFound)
        } else if !can_store(objects, ObjectView::Commit(c)) {
            Err(VcsError::StorageIO)
        } else {
            Ok(c)
        },
    }
}

/// The repository after the commit `c` was created by a step of a rebase:
/// one more object, and every reference as it was.
pub open spec fn applied(v: RepositoryView, c: CommitView) -> RepositoryView {
    RepositoryView { objects: stored(v.objects, ObjectView::Commit(c)), ..v }
}

/// The references after a session finished: as they were if it produced
/// nothing; else its branch points at the commit produced last, and `HEAD`
/// names that branch (or is that reference itself).
pub open spec fn finished_refs(refs: Map<Seq<u8>, ReferenceView>, s: SessionView) -> Map<
    Seq<u8>,
    ReferenceView,
> {
    if s.produced.len() == 0 {
        refs
    } else {
        let moved = refs.insert(s.branch, ReferenceView::Direct(s.produced.last()));
        if s.branch == head_name() {
            moved
        } else {
            moved.insert(head_name(), ReferenceView::Symbolic(s.branch))
        }
    }
}

/// The views of an optional digest and of an optional byte string.
pub open spec fn option_digest_view(o: Option<Digest>) -> Option<Seq<u8>> {
    match o {
        Some(d) => Some(d@),
        None => None,
    }
}

pub open spec fn option_bytes_view(o: Option<Vec<u8>>) -> Option<Seq<u8>> {
    match o {
        Some(b) => Some(b@),
        None => None,
    }
}

/// A rebase in progress.
pub struct Session {
    state: SessionState,
    branch: Vec<u8>,
    onto: Digest,
    operations: Vec<Operation>,
    handed: usize,
    produced: Vec<Digest>,
}

impl View for Session {
    type V = SessionView;

    closed spec fn view(&self) -> SessionView {
        SessionView {
            state: self.state,
            branch: self.branch@,
            onto: self.onto@,
            operations: Seq::new(self.operations.len() as nat, |i: int| self.operations[i].source@),
            handed: self.handed as nat,
            produced: digest_views(self.produced@),
        }
    }
}

fn contains_digest(list: &Vec<Digest>, d: &Digest) -> (r: bool)
    ensures
        r == digest_views(list@).contains(d@),
{
    let mut i: usize = 0;
    while i < list.len()
        invariant
            0 <= i <= list.len(),
            forall|k: int| 0 <= k < i ==> digest_views(list@)[k] != d@,
        decreases list.len() - i,
    {
        if list[i].equals(d) {
            assert(digest_views(list@)[i as int] == d@);
            return true;
        }
        i += 1;
    }
    false
}

impl Session {
    /// The session is valid.
    pub open spec fn wf(&self) -> bool {
        self@.valid()
    }

    /// Starts a rebase of the reference `tip` onto `destination`: the
    /// commits of `tip`'s history that come before the merge base with
    /// `destination`'s history are to be replayed, oldest first, onto
    /// `onto`, or onto `destination` if none is given. A range without
    /// commits is no error.
    pub fn start(repo: &Repository, tip: &[u8], destination: Digest, onto: Option<Digest>) -> (r:
        Result<Session, VcsError>)
        requires
            repo.wf(),
        ensures
            match r {
                Ok(s) => s.wf() && start_spec(repo@, tip@, destination@, option_digest_view(onto))
                    == Ok::<SessionView, VcsError>(s@),
                Err(e) => start_spec(repo@, tip@, destination@, option_digest_view(onto)) == Err::<
                    SessionView,
                    VcsError,
                >(e),
            },
    {
        let tip_id = match repo.resolve(tip) {
            Ok(d) => d,
            Err(e) => {
                return Err(e);
            },
        };
        let h1 = match repo.history(&tip_id) {
            Ok(h) => h,
            Err(e) => {
                return Err(e);
            },
        };
        let h2 = match repo.history(&destination) {
            Ok(h) => h,
            Err(e) => {
                return Err(e);
            },
        };
        let target = match onto {
            Some(o) => o,
            None => destination,
        };
        match repo.store().get(&target) {
            Ok(Object::Commit(_)) => {},
            _ => {
                proof {
                    assert(is_commit(repo@.objects, destination@)) by {
                        let h = digest_views(h2@);
                        assert(is_commit(repo@.objects, h[0]));
                    }
                    assert(is_commit(repo@.objects, tip_id@)) by {
                        let h = digest_views(h1@);
                        assert(is_commit(repo@.objects, h[0]));
                    }
                }
                return Err(VcsError::NotFound);
            },
        }
        let ghost g1 = digest_views(h1@);
        let ghost g2 = digest_views(h2@);
        proof {
            lemma_history_unique(repo@.objects, tip_id@, g1, history_of(repo@.objects, tip_id@));
            lemma_history_unique(
                repo@.objects,
                destination@,
                g2,
                history_of(repo@.objects, destination@),
            );
            assert(is_commit(repo@.objects, g1[0]));
            assert(is_commit(repo@.objects, g2[0]));
        }
        let mut k: usize = 0;
        while k < h1.len() && !contains_digest(&h2, &h1[k])
            invariant
                0 <= k <= h1.len(),
                g1 == digest_views(h1@),
                g2 == digest_views(h2@),
                first_shared(g1, g2) == first_shared_from(g1, g2, k as int),
            decreases h1.len() - k,
        {
            assert(g1[k as int] == h1[k as int]@);
            k += 1;
        }
        if k >= h1.len() {
            return Err(VcsError::UnrelatedHistories);
        }
        assert(g1[k as int] == h1[k as int]@);
        assert(first_shared(g1, g2) == k);
        let mut operations: Vec<Operation> = Vec::new();
        let mut i: usize = k;
        while i > 0
            invariant
                0 <= i <= k <= h1.len(),
                g1 == digest_views(h1@),
                operations.len() == k - i,
                forall|t: int|
                    0 <= t < operations.len() ==> (#[trigger] operations[t]).source@ == g1[k - 1
                        - t],
            decreases i,
        {
            i -= 1;
            operations.push(Operation { kind: OperationKind::Pick, source: h1[i] });
        }
        let branch = if crate::refs::is_head(tip) {
            match repo.refs().head() {
                Reference::Symbolic(b) => bytes_copy(b.as_slice()),
                Reference::Direct(_) => bytes_copy(tip),
            }
        } else {
            bytes_copy(tip)
        };
        let s = Session {
            state: SessionState::Created,
            branch,
            onto: target,
            operations,
            handed: 0,
            produced: Vec::new(),
        };
        proof {
            assert(s@.operations =~= replay_range(g1, g2));
            assert(s@.produced =~= Seq::<Seq<u8>>::empty());
        }
        Ok(s)
    }

    /// Where the session stands.
    pub fn state(&self) -> (r: SessionState)
        ensures
            r == self@.state,
    {
        self.state
    }

    /// The number of operations of the session.
    pub fn len(&self) -> (n: usize)
        ensures
            n == self@.operations.len(),
    {
        self.operations.len()
    }

    /// The commits produced so far.
    pub fn produced(&self) -> (r: &Vec<Digest>)
        ensures
            digest_views(r@) == self@.produced,
    {
        &self.produced
    }

    /// The commit that the next new commit follows.
    pub fn cursor(&self) -> (r: Digest)
        ensures
            r@ == self@.cursor(),
    {
        if self.produced.len() == 0 {
            self.onto
        } else {
            let r = self.produced[self.produced.len() - 1];
            assert(digest_views(self.produced@).last() == r@);
            r
        }
    }

    /// Hands out the operation to apply next, or nothing when all have
    /// been applied or the session is over. An operation handed out stays
    /// current until it is applied: asked again, the session hands it out
    /// again, so that no commit can be skipped.
    pub fn next(&mut self) -> (r: Option<Operation>)
        requires
            old(self).wf(),
        ensures
            final(self).wf(),
            final(self)@ == next_spec(old(self)@).0,
            match r {
                Some(op) => op.kind == OperationKind::Pick && next_spec(old(self)@).1 == Some(
                    op.source@,
                ),
                None => next_spec(old(self)@).1.is_none(),
            },
    {
        match self.state {
            SessionState::Finished | SessionState::Aborted => {
                return None;
            },
            _ => {},
        }
        self.state = SessionState::Running;
        if self.handed > self.produced.len() {
            let op = self.operations[self.handed - 1];
            Some(Operation { kind: OperationKind::Pick, source: op.source })
        } else if self.handed < self.operations.len() {
            let op = self.operations[self.handed];
            self.handed = self.handed + 1;
            Some(Operation { kind: OperationKind::Pick, source: op.source })
        } else {
            None
        }
    }

    /// The commit that applying the current operation would create.
    pub fn plan_current(
        &self,
        repo: &Repository,
        message: Option<Vec<u8>>,
        signature: Signature,
    ) -> (r: Result<Commit, VcsError>)
        requires
            self.wf(),
            repo.wf(),
        ensures
            match r {
                Ok(c) => plan_spec(self@, repo@.objects, option_bytes_view(message), signature@)
                    == Ok::<CommitView, VcsError>(c@),
                Err(e) => plan_spec(self@, repo@.objects, option_bytes_view(message), signature@)
                    == Err::<CommitView, VcsError>(e),
            },
    {
        let running = match self.state {
            SessionState::Running => true,
            _ => false,
        };
        if !running || self.handed <= self.produced.len() {
            return Err(VcsError::InvalidState);
        }
        let source = self.operations[self.handed - 1].source;
        match repo.store().get(&source) {
            Ok(Object::Commit(c)) => {
                let mut parents: Vec<Digest> = Vec::new();
                parents.push(self.cursor());
                let message = match message {
                    Some(m) => m,
                    None => bytes_copy(c.message.as_slice()),
                };
                let commit = Commit {
                    tree: c.tree,
                    parents,
                    author: c.author.clone(),
                    committer: signature,
                    message,
                };
                assert(commit@.parents =~= seq![self@.cursor()]);
                Ok(commit)
            },
            _ => Err(VcsError::NotFound),
        }
    }

    /// Applies the operation handed out last: creates the commit that
    /// replays its commit onto the cursor, and makes that the cursor. No
    /// reference is touched. Fails, changing nothing, with `InvalidState`
    /// if no operation is pending, with `NotFound` if the operation's
    /// commit or the cursor is not a commit held, and otherwise with
    /// `StorageIO` if the new commit cannot be stored; it succeeds on every
    /// other input.
    pub fn apply_current(
        &mut self,
        repo: &mut Repository,
        message: Option<Vec<u8>>,
        signature: Signature,
    ) -> (r: Result<Digest, VcsError>)
        requires
            old(self).wf(),
            old(repo).wf(),
        ensures
            final(self).wf(),
            final(repo).wf(),
            match r {
                Ok(d) => {
                    &&& apply_result(
                        old(self)@,
                        old(repo)@.objects,
                        option_bytes_view(message),
                        signature@,
                    ) matches Ok(c)
                    &&& d@ == digest_of(ObjectView::Commit(c))
                    &&& final(repo)@ == applied(old(repo)@, c)
                    &&& final(self)@ == (SessionView {
                        produced: old(self)@.produced.push(d@),
                        ..old(self)@
                    })
                },
                Err(e) => {
                    &&& apply_result(
                        old(self)@,
                        old(repo)@.objects,
                        option_bytes_view(message),
                        signature@,
                    ) == Err::<CommitView, VcsError>(e)
                    &&& final(repo)@ == old(repo)@
                    &&& final(self)@ == old(self)@
                },
            },
    {
        let commit = match self.plan_current(repo, message, signature) {
            Ok(c) => c,
            Err(e) => {
                return Err(e);
            },
        };
        let hashed = commit.digest();
        self.apply_planned(repo, commit, hashed)
    }

    /// Applies the operation handed out last, given the commit planned for
    /// it and the outcome of computing that commit's digest. If the cursor
    /// is not a commit held, nothing changes and the result is `NotFound`,
    /// whatever the outcome. Otherwise, with a digest the commit is stored
    /// under it and becomes the cursor, unless the digest is taken by
    /// another object: then nothing changes and the result is `StorageIO`.
    /// With an error nothing changes and the error is handed on.
    pub fn apply_planned(
        &mut self,
        repo: &mut Repository,
        commit: Commit,
        hashed: Result<Digest, VcsError>,
    ) -> (r: Result<Digest, VcsError>)
        requires
            old(self).wf(),
            old(repo).wf(),
            plan_spec(
                old(self)@,
                old(repo)@.objects,
                Some(commit@.message),
                commit@.committer,
            ) == Ok::<CommitView, VcsError>(commit@),
            hashed matches Ok(d) ==> d@ == digest_of(ObjectView::Commit(commit@)),
        ensures
            final(self).wf(),
            final(repo).wf(),
            if !is_commit(old(repo)@.objects, old(self)@.cursor()) {
                &&& r == Err::<Digest, VcsError>(VcsError::NotFound)
                &&& final(repo)@ == old(repo)@
                &&& final(self)@ == old(self)@
            } else {
                match hashed {
                    Ok(d) => if clashes(old(repo)@.objects, d@, ObjectView::Commit(commit@)) {
                        &&& r == Err::<Digest, VcsError>(VcsError::StorageIO)
                        &&& final(repo)@ == old(repo)@
                        &&& final(self)@ == old(self)@
                    } else {
                        &&& r == hashed
                        &&& final(repo)@ == applied(old(repo)@, commit@)
                        &&& final(self)@ == (SessionView {
                            produced: old(self)@.produced.push(d@),
                            ..old(self)@
                        })
                    },
                    Err(_) => {
                        &&& r == hashed
                        &&& final(repo)@ == old(repo)@
                        &&& final(self)@ == old(self)@
                    },
                }
            },
    {
        proof {
            assert(commit@.parents[0] == self@.cursor());
        }
        match repo.add_commit_hashed(commit, hashed) {
            Ok(d) => {
                self.produced.push(d);
                assert(self@.produced =~= old(self)@.produced.push(d@));
                Ok(d)
            },
            Err(e) => Err(e),
        }
    }

    /// Finishes the session: the branch is repointed to the commit
    /// produced last and `HEAD` made to name it; nothing changes if no
    /// commit was produced. The session is then over and holds nothing any
    /// more. Fails with `InvalidState`, changing nothing, unless the
    /// session is running.
    pub fn finish(&mut self, repo: &mut Repository) -> (r: Result<(), VcsError>)
        requires
            old(self).wf(),
            old(repo).wf(),
        ensures
            final(self).wf(),
            final(repo).wf(),
            match r {
                Ok(_) => {
                    &&& old(self)@.state == SessionState::Running
                    &&& final(self)@ == old(self)@.closed(SessionState::Finished)
                    &&& final(repo)@ == (RepositoryView {
                        refs: finished_refs(old(repo)@.refs, old(self)@),
                        ..old(repo)@
                    })
                },
                Err(e) => {
                    &&& e == VcsError::InvalidState
                    &&& old(self)@.state != SessionState::Running
                    &&& final(self)@ == old(self)@
                    &&& final(repo)@ == old(repo)@
                },
            },
    {
        match self.state {
            SessionState::Running => {},
            _ => {
                return Err(VcsError::InvalidState);
            },
        }
        if self.produced.len() > 0 {
            let last = self.produced[self.produced.len() - 1];
            assert(digest_views(self.produced@).last() == last@);
            let to_head = crate::refs::is_head(self.branch.as_slice());
            repo.set_reference(bytes_copy(self.branch.as_slice()), last);
            if !to_head {
                repo.set_head(Reference::Symbolic(bytes_copy(self.branch.as_slice())));
            }
        }
        self.discard(SessionState::Finished);
        Ok(())
    }

    /// Aborts the session: its state is discarded and no reference is
    /// touched. A session that has finished stays finished.
    pub fn abort(&mut self)
        requires
            old(self).wf(),
        ensures
            final(self).wf(),
            final(self)@ == if old(self)@.state == SessionState::Finished {
                old(self)@
            } else {
                old(self)@.closed(SessionState::Aborted)
            },
    {
        match self.state {
            SessionState::Finished => {},
            _ => {
                self.discard(SessionState::Aborted);
            },
        }
    }

    fn discard(&mut self, state: SessionState)
        ensures
            final(self)@ == old(self)@.closed(state),
    {
        self.state = state;
        self.operations = Vec::new();
        self.handed = 0;
        self.produced = Vec::new();
        assert(self@.operations =~= Seq::<Seq<u8>>::empty());
        assert(self@.produced =~= Seq::<Seq<u8>>::empty());
    }
}

/// Everything that `m` holds, `n` holds too, unchanged.
pub open spec fn extends(m: Map<Seq<u8>, ObjectView>, n: Map<Seq<u8>, ObjectView>) -> bool {
    forall|id: Seq<u8>| #[trigger] m.contains_key(id) ==> n.contains_key(id) && n[id] == m[id]
}

/// The `i`-th commit of `produced` is held, and it replays the commit of
/// the `i`-th operation, with its own message, onto the commit produced
/// before it, or onto the destination `onto` if it is the first.
pub open spec fn replay_link(
    objects: Map<Seq<u8>, ObjectView>,
    onto: Seq<u8>,
    operations: Seq<Seq<u8>>,
    produced: Seq<Seq<u8>>,
    i: int,
    committer: SignatureView,
) -> bool {
    let replay = ObjectView::Commit(
        replayed(
            commit_at(objects, operations[i]),
            if i == 0 {
                onto
            } else {
                produced[i - 1]
            },
            committer,
            None,
        ),
    );
    &&& is_commit(objects, operations[i])
    &&& produced[i] == digest_of(replay)
    &&& objects.contains_key(produced[i])
    &&& objects[produced[i]] == replay
}

/// Rebasing a reference onto the commit it leads to replays nothing: the
/// session has no operation, hands out none, and leaves every reference as
/// it is when it finishes.
pub proof fn lemma_rebase_onto_tip(
    v: RepositoryView,
    name: Seq<u8>,
    tip: Seq<u8>,
    h: Seq<Seq<u8>>,
    refs: Map<Seq<u8>, ReferenceView>,
)
    requires
        resolve_spec(v.refs, name) == Ok::<Seq<u8>, VcsError>(tip),
        is_history(v.objects, tip, h),
    ensures
        start_spec(v, name, tip, None) is Ok,
        start_spec(v, name, tip, None)->Ok_0.operations.len() == 0,
        next_spec(start_spec(v, name, tip, None)->Ok_0).1.is_none(),
        next_spec(start_spec(v, name, tip, None)->Ok_0).0.state == SessionState::Running,
        finished_refs(refs, next_spec(start_spec(v, name, tip, None)->Ok_0).0) == refs,
{
    let h1 = history_of(v.objects, tip);
    lemma_history_unique(v.objects, tip, h, h1);
    assert(is_commit(v.objects, h[0]));
    assert(h1[0] == tip);
    assert(h1.contains(h1[0]));
}

/// A step of a rebase leaves every reference as it is: whatever a name
/// resolved to before a commit was applied, it resolves to afterwards, and
/// so it does after the session is aborted, which touches no repository.
pub proof fn lemma_apply_keeps_references(v: RepositoryView, c: CommitView, name: Seq<u8>)
    ensures
        applied(v, c).refs == v.refs,
        applied(v, c).index == v.index,
        resolve_spec(applied(v, c).refs, name) == resolve_spec(v.refs, name),
        !clashes(v.objects, digest_of(ObjectView::Commit(c)), ObjectView::Commit(c)) ==> extends(
            v.objects,
            applied(v, c).objects,
        ),
{
}

/// A commit replayed has one parent, the commit it was replayed onto, and
/// the tree and the author of its source.
pub proof fn lemma_replayed(
    source: CommitView,
    parent: Seq<u8>,
    committer: SignatureView,
    message: Option<Seq<u8>>,
)
    ensures
        replayed(source, parent, committer, message).parents.len() == 1,
        replayed(source, parent, committer, message).parents[0] == parent,
        replayed(source, parent, committer, message).tree == source.tree,
        replayed(source, parent, committer, message).author == source.author,
{
}

impl Session {
    /// Applies every operation that is left, in order, each with its own
    /// message and `signature` as the committer. When it succeeds, there
    /// is one commit produced for each operation, and each commit produced
    /// by this call replays its operation onto the commit produced before
    /// it (the first onto the destination). No reference is touched, and
    /// nothing held is changed. It stops at the first step that fails, with
    /// that step's error, and leaves that step pending; it succeeds where
    /// no step fails.
    pub fn replay_all(&mut self, repo: &mut Repository, signature: Signature) -> (r: Result<
        (),
        VcsError,
    >)
        requires
            old(self).wf(),
            old(repo).wf(),
        ensures
            final(self).wf(),
            final(repo).wf(),
            final(repo)@.refs == old(repo)@.refs,
            final(repo)@.index == old(repo)@.index,
            extends(old(repo)@.objects, final(repo)@.objects),
            final(self)@.branch == old(self)@.branch,
            final(self)@.onto == old(self)@.onto,
            final(self)@.operations == old(self)@.operations,
            old(self)@.produced.len() <= final(self)@.produced.len(),
            final(self)@.produced.subrange(0, old(self)@.produced.len() as int) == old(
                self,
            )@.produced,
            forall|i: int|
                old(self)@.produced.len() <= i < final(self)@.produced.len() ==> #[trigger] replay_link(
                    final(repo)@.objects,
                    final(self)@.onto,
                    final(self)@.operations,
                    final(self)@.produced,
                    i,
                    signature@,
                ),
            final(self)@.state == if old(self)@.terminal() {
                old(self)@.state
            } else {
                SessionState::Running
            },
            match r {
                Ok(_) => {
                    &&& final(self)@.produced.len() == final(self)@.operations.len()
                    &&& final(self)@.handed == final(self)@.operations.len()
                },
                Err(e) => {
                    &&& final(self)@.pending()
                    &&& apply_result(final(self)@, final(repo)@.objects, None, signature@) == Err::<
                        CommitView,
                        VcsError,
                    >(e)
                },
            },
    {
        assert(self@.produced.subrange(0, self@.produced.len() as int) =~= self@.produced);
        loop
            invariant
                self.wf(),
                repo.wf(),
                repo@.refs == old(repo)@.refs,
                repo@.index == old(repo)@.index,
                extends(old(repo)@.objects, repo@.objects),
                self@.branch == old(self)@.branch,
                self@.onto == old(self)@.onto,
                self@.operations == old(self)@.operations,
                self@.terminal() == old(self)@.terminal(),
                self@.terminal() ==> self@.state == old(self)@.state,
                old(self)@.produced.len() <= self@.produced.len(),
                self@.produced.subrange(0, old(self)@.produced.len() as int) == old(self)@.produced,
                forall|i: int|
                    old(self)@.produced.len() <= i < self@.produced.len() ==> #[trigger] replay_link(
                        repo@.objects,
                        self@.onto,
                        self@.operations,
                        self@.produced,
                        i,
                        signature@,
                    ),
            decreases self@.operations.len() - self@.produced.len(),
        {
            match self.next() {
                None => {
                    return Ok(());
                },
                Some(_) => {},
            }
            let ghost s0 = self@;
            let ghost v0 = repo@;
            match self.apply_current(repo, None, signature.clone()) {
                Ok(_) => {
                    proof {
                        let n = s0.produced.len() as int;
                        assert(self@.produced.subrange(0, old(self)@.produced.len() as int)
                            =~= s0.produced.subrange(0, old(self)@.produced.len() as int));
                        assert forall|i: int|
                            old(self)@.produced.len() <= i
                                < self@.produced.len() implies #[trigger] replay_link(
                            repo@.objects,
                            self@.onto,
                            self@.operations,
                            self@.produced,
                            i,
                            signature@,
                        ) by {
                            if i < n {
                                assert(replay_link(
                                    v0.objects,
                                    s0.onto,
                                    s0.operations,
                                    s0.produced,
                                    i,
                                    signature@,
                                ));
                                assert(v0.objects.contains_key(s0.operations[i]));
                                assert(self@.produced[i] == s0.produced[i]);
                                if i > 0 {
                                    assert(self@.produced[i - 1] == s0.produced[i - 1]);
                                }
                            } else {
                                assert(v0.objects.contains_key(s0.operations[i]));
                                if i > 0 {
                                    assert(self@.produced[i - 1] == s0.produced.last());
                                }
                            }
                        }
                    }
                },
                Err(e) => {
                    return Err(e);
                },
            }
        }
    }
}

} // verus!
