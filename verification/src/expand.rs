//! Growing the statement tree. The tree under construction is kept here; the
//! caller asks the service on behalf of every waiting node, in any order and
//! side by side, and reports what came back.

use crate::node::{height, tallest, trees, Node, Tree};
use crate::query::QueryError;
use crate::text::{copy_lines, texts};
use vstd::prelude::*;

verus! {

/// How far the expansion of one node has come.
#[derive(Clone, Copy, Debug, PartialEq, Eq, Structural)]
pub enum Stage {
    /// The service has yet to be asked, or to answer.
    Waiting,
    /// The expansion failed: the node and all below it are left out.
    Dropped,
    /// The node stands, with the candidates it received as its shoots.
    Grown,
}

/// What came back for the request of one waiting node.
pub enum Outcome {
    /// The candidate statements, in the order in which the service gave them.
    Candidates(Vec<String>),
    /// The exchange failed.
    Failed(QueryError),
    /// The task that ran the exchange was lost and could not be joined.
    Lost,
}

/// Model of an [`Outcome`].
pub enum OutcomeView {
    Candidates(Seq<Seq<char>>),
    Failed(QueryError),
    Lost,
}

impl View for Outcome {
    type V = OutcomeView;

    open spec fn view(&self) -> OutcomeView {
        match self {
            Outcome::Candidates(labels) => OutcomeView::Candidates(texts(labels@)),
            Outcome::Failed(error) => OutcomeView::Failed(*error),
            Outcome::Lost => OutcomeView::Lost,
        }
    }
}

/// Model of the tree under construction.
pub struct SproutView {
    pub label: Seq<char>,
    pub stage: Stage,
    pub shoots: Seq<SproutView>,
}

/// A node that was just created with `room` levels left below it: a leaf at
/// once where no level is left, waiting for the service otherwise.
pub open spec fn seed(label: Seq<char>, room: nat) -> SproutView {
    SproutView {
        label,
        stage: if room == 0 {
            Stage::Grown
        } else {
            Stage::Waiting
        },
        shoots: Seq::empty(),
    }
}

/// One fresh node per label, in the order of the labels.
pub open spec fn seeds(labels: Seq<Seq<char>>, room: nat) -> Seq<SproutView> {
    Seq::new(labels.len(), |i: int| seed(labels[i], room))
}

/// The shape that every tree under construction has, `room` being the number
/// of levels left below its root.
pub open spec fn sound(t: SproutView, room: nat) -> bool
    decreases t,
{
    &&& t.stage is Waiting ==> room > 0
    &&& !(t.stage is Grown) ==> t.shoots.len() == 0
    &&& room == 0 ==> t.shoots.len() == 0
    &&& forall|i: int| 0 <= i < t.shoots.len() ==> sound(#[trigger] t.shoots[i], (room - 1) as nat)
}

/// Whether `path`, a sequence of child positions from the root down, leads to
/// a node that waits for its answer.
pub open spec fn waiting_at(t: SproutView, path: Seq<int>) -> bool
    decreases path.len(),
{
    if path.len() == 0 {
        t.stage is Waiting
    } else {
        0 <= path[0] < t.shoots.len() && waiting_at(t.shoots[path[0]], path.drop_first())
    }
}

/// The tree after the outcome for the node at `path` has been taken in.
///
/// Candidates make the node grow one fresh shoot each, in their order. A failed
/// exchange drops the node. A lost task drops the parent that was to collect
/// it, or the root where the root itself was asked for. A path that leads to no
/// waiting node changes nothing.
pub open spec fn settle(t: SproutView, path: Seq<int>, room: nat, outcome: OutcomeView) -> SproutView
    decreases path.len(),
{
    if path.len() == 0 {
        if t.stage is Waiting {
            match outcome {
                OutcomeView::Candidates(labels) => SproutView {
                    label: t.label,
                    stage: Stage::Grown,
                    shoots: seeds(labels, (room - 1) as nat),
                },
                _ => SproutView { label: t.label, stage: Stage::Dropped, shoots: Seq::empty() },
            }
        } else {
            t
        }
    } else if 0 <= path[0] < t.shoots.len() {
        if path.len() == 1 && outcome is Lost && t.shoots[path[0]].stage is Waiting {
            SproutView { label: t.label, stage: Stage::Dropped, shoots: Seq::empty() }
        } else {
            SproutView {
                label: t.label,
                stage: t.stage,
                shoots: t.shoots.update(
                    path[0],
                    settle(t.shoots[path[0]], path.drop_first(), (room - 1) as nat, outcome),
                ),
            }
        }
    } else {
        t
    }
}

/// The finished tree: a grown node with those of its shoots that yield a tree,
/// in their order; nothing for a node that was dropped or still waits.
pub open spec fn harvest(t: SproutView) -> Option<Tree>
    decreases t,
{
    if t.stage is Grown {
        Some(Tree { label: t.label, kids: survivors(t.shoots) })
    } else {
        None
    }
}

/// The trees of those shoots that yield one, in the order of the shoots.
pub open spec fn survivors(ts: Seq<SproutView>) -> Seq<Tree>
    decreases ts,
{
    if ts.len() == 0 {
        Seq::empty()
    } else {
        match harvest(ts.last()) {
            Some(tree) => survivors(ts.drop_last()).push(tree),
            None => survivors(ts.drop_last()),
        }
    }
}

/// The positions of a path as mathematical integers.
pub open spec fn ints(path: Seq<usize>) -> Seq<int> {
    Seq::new(path.len(), |i: int| path[i] as int)
}

/// What the service is to be asked on behalf of one waiting node.
pub struct Request {
    /// The child positions that lead from the root to the node.
    pub path: Vec<usize>,
    /// The statement to expand.
    pub statement: String,
    /// The statements from the root down to the node's parent.
    pub ancestors: Vec<String>,
}

/// Model of a [`Request`].
pub struct RequestView {
    pub path: Seq<int>,
    pub statement: Seq<char>,
    pub ancestors: Seq<Seq<char>>,
}

impl View for Request {
    type V = RequestView;

    open spec fn view(&self) -> RequestView {
        RequestView {
            path: ints(self.path@),
            statement: self.statement@,
            ancestors: texts(self.ancestors@),
        }
    }
}

/// The models of a sequence of requests.
pub open spec fn request_views(requests: Seq<Request>) -> Seq<RequestView> {
    Seq::new(requests.len(), |i: int| requests[i]@)
}

/// The requests of the waiting nodes of a tree, parents before children and
/// siblings left to right. `path` leads to the root of `t` and `lineage` holds
/// the statements above it.
pub open spec fn pending(t: SproutView, path: Seq<int>, lineage: Seq<Seq<char>>) -> Seq<RequestView>
    decreases t,
{
    if t.stage is Waiting {
        seq![RequestView { path, statement: t.label, ancestors: lineage }]
    } else {
        pending_among(t.shoots, path, lineage.push(t.label))
    }
}

/// The requests of the waiting nodes below a node at `path`, whose shoots are
/// `ts`; `lineage` ends with that node's statement.
pub open spec fn pending_among(ts: Seq<SproutView>, path: Seq<int>, lineage: Seq<Seq<char>>) -> Seq<
    RequestView,
>
    decreases ts,
{
    if ts.len() == 0 {
        Seq::empty()
    } else {
        pending_among(ts.drop_last(), path, lineage) + pending(
            ts.last(),
            path.push(ts.len() - 1),
            lineage,
        )
    }
}

/// A node of the tree under construction.
struct Sprout {
    statement: String,
    stage: Stage,
    shoots: Vec<Sprout>,
}

/// The models of a sequence of nodes.
spec fn models(sprouts: Seq<Sprout>) -> Seq<SproutView> {
    Seq::new(sprouts.len(), |i: int| sprouts[i].model())
}

/// A copy of the positions.
fn copy_path(path: &Vec<usize>) -> (out: Vec<usize>)
    ensures
        out@ == path@,
{
    let mut out: Vec<usize> = Vec::new();
    let mut i: usize = 0;
    while i < path.len()
        invariant
            i <= path.len(),
            out@ == path@.take(i as int),
        decreases path.len() - i,
    {
        out.push(path[i]);
        assert(path@.take(i + 1) =~= path@.take(i as int).push(path@[i as int]));
        i += 1;
    }
    assert(path@.take(i as int) =~= path@);
    out
}

/// One fresh node per label, in the order of the labels.
fn sprouts(labels: Vec<String>, room: u32) -> (out: Vec<Sprout>)
    ensures
        models(out@) == seeds(texts(labels@), room as nat),
{
    let mut out: Vec<Sprout> = Vec::new();
    let mut i: usize = 0;
    while i < labels.len()
        invariant
            i <= labels.len(),
            out.len() == i,
            forall|j: int| 0 <= j < i ==> out@[j].model() == seed(labels@[j]@, room as nat),
        decreases labels.len() - i,
    {
        let sprout = Sprout::fresh(labels[i].clone(), room);
        out.push(sprout);
        i += 1;
    }
    assert(models(out@) =~= seeds(texts(labels@), room as nat));
    out
}

impl Sprout {
    /// The model of this node and of all below it.
    spec fn model(&self) -> SproutView
        decreases self,
    {
        SproutView {
            label: self.statement@,
            stage: self.stage,
            shoots: Seq::new(
                self.shoots@.len(),
                |i: int|
                    if 0 <= i < self.shoots@.len() {
                        self.shoots@[i].model()
                    } else {
                        arbitrary()
                    },
            ),
        }
    }

    /// The shoots of the model are the models of the shoots.
    proof fn lemma_model_shoots(&self)
        ensures
            self.model().shoots == models(self.shoots@),
    {
        assert(self.model().shoots =~= models(self.shoots@));
    }

    /// A node that was just created with `room` levels left below it.
    fn fresh(statement: String, room: u32) -> (sprout: Sprout)
        ensures
            sprout.model() == seed(statement@, room as nat),
    {
        let stage = if room == 0 {
            Stage::Grown
        } else {
            Stage::Waiting
        };
        let sprout = Sprout { statement, stage, shoots: Vec::new() };
        assert(sprout.model().shoots =~= Seq::empty());
        sprout
    }

    /// Takes in the outcome for the node that the positions of `path` from
    /// `at` on lead to, and says whether that node was waiting.
    fn settle(&mut self, path: &Vec<usize>, at: usize, room: u32, outcome: Outcome) -> (hit: bool)
        requires
            at <= path.len(),
            sound(old(self).model(), room as nat),
        ensures
            final(self).model() == settle(
                old(self).model(),
                ints(path@.skip(at as int)),
                room as nat,
                outcome@,
            ),
            sound(final(self).model(), room as nat),
            hit == waiting_at(old(self).model(), ints(path@.skip(at as int))),
        decreases path.len() - at,
    {
        let ghost rest = ints(path@.skip(at as int));
        let ghost before = old(self).model();
        let ghost result = settle(before, rest, room as nat, outcome@);
        if at == path.len() {
            assert(rest.len() == 0);
            match self.stage {
                Stage::Waiting => {
                    match outcome {
                        Outcome::Candidates(labels) => {
                            let shoots = sprouts(labels, room - 1);
                            self.shoots = shoots;
                            self.stage = Stage::Grown;
                            proof {
                                self.lemma_model_shoots();
                                assert(self.model().shoots == seeds(texts(labels@), (room - 1) as nat));
                                assert(self.model() == result);
                                assert forall|i: int| 0 <= i < self.model().shoots.len() implies sound(
                                    #[trigger] self.model().shoots[i],
                                    (room - 1) as nat,
                                ) by {
                                    assert(self.model().shoots[i] == seed(
                                        texts(labels@)[i],
                                        (room - 1) as nat,
                                    ));
                                }
                                assert(sound(self.model(), room as nat));
                            }
                        },
                        _ => {
                            self.stage = Stage::Dropped;
                            assert(self.model().shoots =~= Seq::empty());
                            assert(self.model() == result);
                            assert(sound(self.model(), room as nat));
                        },
                    }
                    true
                },
                _ => {
                    assert(self.model() == result);
                    false
                },
            }
        } else {
            let k = path[at];
            assert(rest.len() > 0);
            assert(rest[0] == k as int);
            assert(rest.drop_first() =~= ints(path@.skip(at + 1)));
            if k < self.shoots.len() {
                let lost = match outcome {
                    Outcome::Lost => true,
                    _ => false,
                };
                let waiting = match self.shoots[k].stage {
                    Stage::Waiting => true,
                    _ => false,
                };
                assert(before.shoots[k as int] == self.shoots@[k as int].model());
                assert(waiting == (before.shoots[k as int].stage is Waiting));
                if at + 1 == path.len() && lost && waiting {
                    self.stage = Stage::Dropped;
                    self.shoots = Vec::new();
                    assert(self.model().shoots =~= Seq::empty());
                    assert(rest.len() == 1);
                    assert(self.model() == result);
                    assert(sound(self.model(), room as nat));
                    assert(waiting_at(before.shoots[k as int], rest.drop_first()));
                    true
                } else {
                    assert(sound(before.shoots[k as int], (room - 1) as nat));
                    let hit = self.shoots[k].settle(path, at + 1, room - 1, outcome);
                    proof {
                        let child = settle(
                            before.shoots[k as int],
                            ints(path@.skip(at + 1)),
                            (room - 1) as nat,
                            outcome@,
                        );
                        assert(self.model().shoots =~= before.shoots.update(k as int, child));
                        assert(self.model() == result);
                        assert forall|i: int| 0 <= i < self.model().shoots.len() implies sound(
                            #[trigger] self.model().shoots[i],
                            (room - 1) as nat,
                        ) by {
                            if i != k {
                                assert(self.model().shoots[i] == before.shoots[i]);
                            }
                        }
                        assert(sound(self.model(), room as nat));
                    }
                    hit
                }
            } else {
                assert(self.model() == result);
                false
            }
        }
    }

    /// Adds the requests of the waiting nodes of this tree to `out`.
    fn collect(&self, path: &Vec<usize>, lineage: &Vec<String>, out: &mut Vec<Request>)
        ensures
            request_views(final(out)@) == request_views(old(out)@) + pending(
                self.model(),
                ints(path@),
                texts(lineage@),
            ),
        decreases self,
    {
        let ghost before = request_views(out@);
        match self.stage {
            Stage::Waiting => {
                let request = Request {
                    path: copy_path(path),
                    statement: self.statement.clone(),
                    ancestors: copy_lines(lineage),
                };
                out.push(request);
                assert(request_views(out@) =~= before + pending(
                    self.model(),
                    ints(path@),
                    texts(lineage@),
                ));
            },
            _ => {
                let mut below = copy_lines(lineage);
                below.push(self.statement.clone());
                assert(texts(below@) =~= texts(lineage@).push(self.statement@));
                let ghost shoots = self.model().shoots;
                assert(shoots.take(0) =~= Seq::<SproutView>::empty());
                assert(request_views(out@) =~= before + Seq::<RequestView>::empty());
                let mut i: usize = 0;
                while i < self.shoots.len()
                    invariant
                        i <= self.shoots.len(),
                        shoots == self.model().shoots,
                        shoots.len() == self.shoots.len(),
                        request_views(out@) == before + pending_among(
                            shoots.take(i as int),
                            ints(path@),
                            texts(below@),
                        ),
                    decreases self.shoots.len() - i,
                {
                    let mut sub = copy_path(path);
                    sub.push(i);
                    self.shoots[i].collect(&sub, &below, out);
                    proof {
                        assert(ints(sub@) =~= ints(path@).push(i as int));
                        assert(shoots.take(i + 1).drop_last() =~= shoots.take(i as int));
                        assert(shoots.take(i + 1).last() == self.shoots@[i as int].model());
                        assert(request_views(out@) =~= before + pending_among(
                            shoots.take(i + 1),
                            ints(path@),
                            texts(below@),
                        ));
                    }
                    i += 1;
                }
                assert(shoots.take(i as int) =~= shoots);
            },
        }
    }

    /// The finished tree of this node, where it has grown.
    fn reap(&self) -> (out: Option<Box<Node>>)
        ensures
            match out {
                Some(node) => harvest(self.model()) == Some(node@),
                None => harvest(self.model()) is None,
            },
        decreases self,
    {
        match self.stage {
            Stage::Grown => {
                let ghost shoots = self.model().shoots;
                let mut children: Vec<Box<Node>> = Vec::new();
                assert(shoots.take(0) =~= Seq::<SproutView>::empty());
                assert(trees(children@) =~= Seq::<Tree>::empty());
                let mut i: usize = 0;
                while i < self.shoots.len()
                    invariant
                        i <= self.shoots.len(),
                        shoots == self.model().shoots,
                        shoots.len() == self.shoots.len(),
                        trees(children@) == survivors(shoots.take(i as int)),
                    decreases self.shoots.len() - i,
                {
                    let ghost so_far = trees(children@);
                    proof {
                        assert(shoots.take(i + 1).drop_last() =~= shoots.take(i as int));
                        assert(shoots.take(i + 1).last() == self.shoots@[i as int].model());
                    }
                    match self.shoots[i].reap() {
                        Some(child) => {
                            children.push(child);
                            assert(trees(children@) =~= so_far.push(child@));
                        },
                        None => {},
                    }
                    i += 1;
                }
                assert(shoots.take(i as int) =~= shoots);
                let node = Node { statement: self.statement.clone(), children };
                assert(node@.kids =~= trees(node.children@));
                Some(Box::new(node))
            },
            _ => None,
        }
    }
}

/// A tree that grows from `room` levels below its root is at most `room + 1`
/// nodes high.
pub proof fn lemma_harvest_height(t: SproutView, room: nat)
    requires
        sound(t, room),
    ensures
        harvest(t) matches Some(tree) ==> height(tree) <= room + 1,
    decreases t, 1nat,
{
    if t.stage is Grown {
        if t.shoots.len() > 0 {
            lemma_survivors_height(t.shoots, (room - 1) as nat);
        }
    }
}

/// The trees that grow from shoots with `room` levels below each are at most
/// `room + 1` nodes high.
pub proof fn lemma_survivors_height(ts: Seq<SproutView>, room: nat)
    requires
        forall|i: int| 0 <= i < ts.len() ==> sound(#[trigger] ts[i], room),
    ensures
        tallest(survivors(ts)) <= room + 1,
    decreases ts, 0nat,
{
    if ts.len() > 0 {
        let front = ts.drop_last();
        assert forall|i: int| 0 <= i < front.len() implies sound(#[trigger] front[i], room) by {
            assert(front[i] == ts[i]);
        }
        lemma_survivors_height(front, room);
        assert(sound(ts[ts.len() - 1], room));
        lemma_harvest_height(ts.last(), room);
        match harvest(ts.last()) {
            Some(tree) => {
                assert(survivors(front).push(tree).drop_last() =~= survivors(front));
            },
            None => {},
        }
    }
}

/// The survivors of two runs of shoots are those of the first run followed by
/// those of the second.
pub proof fn lemma_survivors_concat(a: Seq<SproutView>, b: Seq<SproutView>)
    ensures
        survivors(a + b) == survivors(a) + survivors(b),
    decreases b.len(),
{
    if b.len() == 0 {
        assert(a + b =~= a);
        assert(survivors(a) + survivors(b) =~= survivors(a));
    } else {
        assert((a + b).drop_last() =~= a + b.drop_last());
        assert((a + b).last() == b.last());
        lemma_survivors_concat(a, b.drop_last());
        match harvest(b.last()) {
            Some(tree) => {
                assert(survivors(a + b) =~= survivors(a) + survivors(b));
            },
            None => {},
        }
    }
}

/// A failure is borne by the node that it befell and by no other: when the
/// exchange for the waiting child `k` of a grown node fails, the node still
/// yields a tree, and its children are those that its other shoots yield, in
/// their order.
pub proof fn lemma_failure_is_local(t: SproutView, k: int, room: nat, error: QueryError)
    requires
        t.stage is Grown,
        0 <= k < t.shoots.len(),
        t.shoots[k].stage is Waiting,
    ensures
        harvest(settle(t, seq![k], room, OutcomeView::Failed(error))) == Some(
            Tree {
                label: t.label,
                kids: survivors(t.shoots.take(k)) + survivors(t.shoots.skip(k + 1)),
            },
        ),
{
    let path = seq![k];
    let after = settle(t, path, room, OutcomeView::Failed(error));
    let child = t.shoots[k];
    assert(path.drop_first().len() == 0);
    let dropped = settle(child, path.drop_first(), (room - 1) as nat, OutcomeView::Failed(error));
    assert(dropped.stage is Dropped);
    assert(after.shoots == t.shoots.update(k, dropped));
    let front = t.shoots.take(k);
    let back = t.shoots.skip(k + 1);
    assert(after.shoots =~= (front + seq![dropped]) + back);
    lemma_survivors_concat(front + seq![dropped], back);
    lemma_survivors_concat(front, seq![dropped]);
    assert(seq![dropped].drop_last() =~= Seq::<SproutView>::empty());
    assert(survivors(seq![dropped].drop_last()) =~= Seq::<Tree>::empty());
    assert(seq![dropped].last() == dropped);
    assert(harvest(dropped) is None);
    assert(survivors(seq![dropped]) =~= Seq::<Tree>::empty());
    assert(survivors(front) + Seq::<Tree>::empty() =~= survivors(front));
}

/// The order in which answers arrive does not matter: taking in the outcomes
/// of two different waiting nodes leads to the same tree either way round.
pub proof fn lemma_deliveries_commute(
    t: SproutView,
    room: nat,
    p: Seq<int>,
    x: OutcomeView,
    q: Seq<int>,
    y: OutcomeView,
)
    requires
        sound(t, room),
        waiting_at(t, p),
        waiting_at(t, q),
        p != q,
    ensures
        settle(settle(t, p, room, x), q, room, y) == settle(settle(t, q, room, y), p, room, x),
    decreases p.len(),
{
    if p.len() == 0 {
        assert(q.len() > 0) by {
            if q.len() == 0 {
                assert(p =~= q);
            }
        }
    } else if q.len() == 0 {
    } else {
        let i = p[0];
        let j = q[0];
        let below = (room - 1) as nat;
        let pa = settle(t, p, room, x);
        let qa = settle(t, q, room, y);
        let p_lost = p.len() == 1 && x is Lost;
        let q_lost = q.len() == 1 && y is Lost;
        if i != j {
            if p.len() == 1 {
                assert(waiting_at(t.shoots[i], p.drop_first()));
                assert(t.shoots[i].stage is Waiting);
            }
            if q.len() == 1 {
                assert(waiting_at(t.shoots[j], q.drop_first()));
                assert(t.shoots[j].stage is Waiting);
            }
            if !p_lost && !q_lost {
                let a = settle(t.shoots[i], p.drop_first(), below, x);
                let b = settle(t.shoots[j], q.drop_first(), below, y);
                assert(pa.shoots == t.shoots.update(i, a));
                assert(qa.shoots == t.shoots.update(j, b));
                assert(pa.shoots[j] == t.shoots[j]);
                assert(qa.shoots[i] == t.shoots[i]);
                assert(t.shoots.update(i, a).update(j, b) =~= t.shoots.update(j, b).update(i, a));
            }
        } else {
            let c = t.shoots[i];
            let ps = p.drop_first();
            let qs = q.drop_first();
            assert(sound(c, below));
            assert(waiting_at(c, ps));
            assert(waiting_at(c, qs));
            assert(ps != qs) by {
                if ps == qs {
                    assert(p =~= seq![i] + ps);
                    assert(q =~= seq![j] + qs);
                }
            }
            if ps.len() == 0 {
                assert(c.stage is Waiting);
                assert(qs.len() > 0) by {
                    if qs.len() == 0 {
                        assert(ps =~= qs);
                    }
                }
            } else if qs.len() == 0 {
                assert(c.stage is Waiting);
            } else {
                lemma_deliveries_commute(c, below, ps, x, qs, y);
                let a = settle(c, ps, below, x);
                let b = settle(c, qs, below, y);
                assert(pa.shoots == t.shoots.update(i, a));
                assert(qa.shoots == t.shoots.update(i, b));
                assert(t.shoots.update(i, a).update(i, settle(a, qs, below, y)) =~= t.shoots.update(
                    i,
                    b,
                ).update(i, settle(b, ps, below, x)));
            }
        }
    }
}

/// Every request belongs to a node that waits: its path begins with the path
/// of the tree's root and goes on to a waiting node of the tree.
pub proof fn lemma_requests_wait(t: SproutView, path: Seq<int>, lineage: Seq<Seq<char>>, i: int)
    requires
        0 <= i < pending(t, path, lineage).len(),
    ensures
        ({
            let full = pending(t, path, lineage)[i].path;
            &&& full.len() >= path.len()
            &&& full.take(path.len() as int) == path
            &&& waiting_at(t, full.skip(path.len() as int))
        }),
    decreases t, 1nat,
{
    if t.stage is Waiting {
        assert(path.take(path.len() as int) =~= path);
        assert(path.skip(path.len() as int) =~= Seq::<int>::empty());
    } else {
        lemma_requests_wait_among(t.shoots, path, lineage.push(t.label), i);
        let full = pending(t, path, lineage)[i].path;
        let rest = full.skip(path.len() as int);
        assert(rest[0] == full[path.len() as int]);
        assert(rest.drop_first() =~= full.skip(path.len() as int + 1));
    }
}

/// Every request below a node belongs to a waiting node under one of the
/// node's shoots.
pub proof fn lemma_requests_wait_among(
    ts: Seq<SproutView>,
    path: Seq<int>,
    lineage: Seq<Seq<char>>,
    i: int,
)
    requires
        0 <= i < pending_among(ts, path, lineage).len(),
    ensures
        ({
            let full = pending_among(ts, path, lineage)[i].path;
            &&& full.len() > path.len()
            &&& full.take(path.len() as int) == path
            &&& 0 <= full[path.len() as int] < ts.len()
            &&& waiting_at(ts[full[path.len() as int]], full.skip(path.len() as int + 1))
        }),
    decreases ts, 0nat,
{
    if ts.len() > 0 {
        let front = pending_among(ts.drop_last(), path, lineage);
        if i < front.len() {
            lemma_requests_wait_among(ts.drop_last(), path, lineage, i);
            let full = front[i].path;
            assert(ts.drop_last()[full[path.len() as int]] == ts[full[path.len() as int]]);
        } else {
            let below = path.push(ts.len() - 1);
            lemma_requests_wait(ts.last(), below, lineage, i - front.len());
            let full = pending(ts.last(), below, lineage)[i - front.len()].path;
            assert(full[path.len() as int] == full.take(below.len() as int)[path.len() as int]);
            assert(full.take(path.len() as int) =~= below.take(path.len() as int));
            assert(below.take(path.len() as int) =~= path);
        }
    }
}

/// Every node that waits has its request: the result is the position of the
/// request for the waiting node at `spot`.
pub proof fn lemma_waiting_is_pending(
    t: SproutView,
    room: nat,
    path: Seq<int>,
    lineage: Seq<Seq<char>>,
    spot: Seq<int>,
) -> (i: int)
    requires
        sound(t, room),
        waiting_at(t, spot),
    ensures
        0 <= i < pending(t, path, lineage).len(),
        pending(t, path, lineage)[i].path == path + spot,
    decreases t, 1nat,
{
    if spot.len() == 0 {
        assert(path + spot =~= path);
        0
    } else {
        let i = lemma_waiting_is_pending_among(
            t.shoots,
            (room - 1) as nat,
            path,
            lineage.push(t.label),
            spot,
        );
        i
    }
}

/// Every node that waits under one of a node's shoots has its request among
/// those below the node.
pub proof fn lemma_waiting_is_pending_among(
    ts: Seq<SproutView>,
    room: nat,
    path: Seq<int>,
    lineage: Seq<Seq<char>>,
    spot: Seq<int>,
) -> (i: int)
    requires
        forall|k: int| 0 <= k < ts.len() ==> sound(#[trigger] ts[k], room),
        spot.len() > 0,
        0 <= spot[0] < ts.len(),
        waiting_at(ts[spot[0]], spot.drop_first()),
    ensures
        0 <= i < pending_among(ts, path, lineage).len(),
        pending_among(ts, path, lineage)[i].path == path + spot,
    decreases ts, 0nat,
{
    let front = pending_among(ts.drop_last(), path, lineage);
    if spot[0] == ts.len() - 1 {
        let below = path.push(ts.len() - 1);
        assert(sound(ts[ts.len() - 1], room));
        let j = lemma_waiting_is_pending(ts.last(), room, below, lineage, spot.drop_first());
        assert(below + spot.drop_first() =~= path + spot);
        front.len() + j
    } else {
        assert(ts.drop_last()[spot[0]] == ts[spot[0]]);
        assert forall|k: int| 0 <= k < ts.drop_last().len() implies sound(
            #[trigger] ts.drop_last()[k],
            room,
        ) by {
            assert(ts.drop_last()[k] == ts[k]);
        }
        let j = lemma_waiting_is_pending_among(ts.drop_last(), room, path, lineage, spot);
        j
    }
}

/// The depth-bounded expansion of one root statement.
///
/// The caller asks the service for every request that [`Expansion::requests`]
/// lists and hands each outcome to [`Expansion::deliver`], in whatever order
/// the answers arrive, until no request is left.
pub struct Expansion {
    max_depth: u32,
    root: Sprout,
}

impl View for Expansion {
    type V = SproutView;

    closed spec fn view(&self) -> SproutView {
        self.root.model()
    }
}

impl Expansion {
    /// The tree under construction respects the depth limit at all times.
    #[verifier::type_invariant]
    spec fn well_formed(self) -> bool {
        sound(self.root.model(), self.max_depth as nat)
    }

    /// The greatest level at which a node may stand, the root standing at 0.
    pub closed spec fn limit(&self) -> nat {
        self.max_depth as nat
    }

    /// An expansion with nothing but its root, which waits for the service
    /// unless the depth limit is 0.
    pub fn new(root: String, max_depth: u32) -> (expansion: Expansion)
        ensures
            expansion@ == seed(root@, max_depth as nat),
            expansion.limit() == max_depth,
            sound(expansion@, expansion.limit()),
    {
        Expansion { max_depth, root: Sprout::fresh(root, max_depth) }
    }

    /// The depth limit that the expansion was created with.
    pub fn max_depth(&self) -> (depth: u32)
        ensures
            depth == self.limit(),
    {
        self.max_depth
    }

    /// The requests that are still to be answered, parents before children and
    /// siblings left to right: one for every node that waits, and none once
    /// no node waits any more.
    pub fn requests(&self) -> (out: Vec<Request>)
        ensures
            request_views(out@) == pending(self@, Seq::empty(), Seq::empty()),
            forall|i: int| 0 <= i < out.len() ==> waiting_at(self@, ints(#[trigger] out@[i].path@)),
            forall|spot: Seq<int>| #[trigger]
                waiting_at(self@, spot) ==> exists|i: int|
                    0 <= i < out.len() && ints(#[trigger] out@[i].path@) == spot,
    {
        let mut out: Vec<Request> = Vec::new();
        let path: Vec<usize> = Vec::new();
        let lineage: Vec<String> = Vec::new();
        self.root.collect(&path, &lineage, &mut out);
        proof {
            assert(ints(path@) =~= Seq::<int>::empty());
            assert(texts(lineage@) =~= Seq::<Seq<char>>::empty());
            assert(request_views(out@) =~= pending(self@, Seq::empty(), Seq::empty()));
            use_type_invariant(self);
            let listed = pending(self@, Seq::empty(), Seq::empty());
            assert(listed.len() == out.len());
            assert forall|i: int| 0 <= i < out.len() implies waiting_at(
                self@,
                ints(#[trigger] out@[i].path@),
            ) by {
                lemma_requests_wait(self@, Seq::empty(), Seq::empty(), i);
                assert(listed[i] == out@[i]@);
                assert(listed[i].path.skip(0) =~= listed[i].path);
            }
            assert forall|spot: Seq<int>| #[trigger] waiting_at(self@, spot) implies exists|i: int|
                0 <= i < out.len() && ints(#[trigger] out@[i].path@) == spot by {
                let i = lemma_waiting_is_pending(
                    self@,
                    self.limit(),
                    Seq::empty(),
                    Seq::empty(),
                    spot,
                );
                assert(listed[i] == out@[i]@);
                assert(Seq::<int>::empty() + spot =~= spot);
                assert(ints(out@[i].path@) == spot);
            }
        }
        out
    }

    /// Takes in the outcome for the node at `path`. Returns whether the path
    /// led to a waiting node; where it did not, nothing changes.
    pub fn deliver(&mut self, path: &Vec<usize>, outcome: Outcome) -> (hit: bool)
        ensures
            final(self)@ == settle(old(self)@, ints(path@), old(self).limit(), outcome@),
            final(self).limit() == old(self).limit(),
            hit == waiting_at(old(self)@, ints(path@)),
            sound(old(self)@, old(self).limit()),
            sound(final(self)@, final(self).limit()),
    {
        proof {
            use_type_invariant(&*self);
            assert(path@.skip(0) =~= path@);
        }
        let mut root = Sprout { statement: String::new(), stage: Stage::Dropped, shoots: Vec::new() };
        assert(root.model().shoots =~= Seq::empty());
        std::mem::swap(&mut self.root, &mut root);
        let hit = root.settle(path, 0, self.max_depth, outcome);
        std::mem::swap(&mut self.root, &mut root);
        hit
    }

    /// The tree as it stands: every grown node with its grown descendants,
    /// children in the order in which they were proposed. `None` where the
    /// root was dropped or still waits. No path from the root to a leaf holds
    /// more than `max_depth + 1` nodes.
    pub fn finish(&self) -> (out: Option<Box<Node>>)
        ensures
            match out {
                Some(node) => harvest(self@) == Some(node@) && height(node@) <= self.limit() + 1,
                None => harvest(self@) is None,
            },
    {
        proof {
            use_type_invariant(self);
            lemma_harvest_height(self@, self.limit());
        }
        self.root.reap()
    }
}


} // verus!
