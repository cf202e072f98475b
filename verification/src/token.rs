//! How tokens are declared, propagated, forgotten and reported by a peer.

use vstd::prelude::*;

use crate::declare::{RoutedDeclare, WireExpr};
use crate::dict::{
    has_key, key_pos, lemma_key_pos, lemma_lookup_at, lemma_removed, lookup, removed, unique_keys,
    Dict,
};
use crate::seqs::{lemma_filter_step, lemma_take_ends};
use crate::tables::{
    lemma_with_ctx_wf, lemma_with_face_wf, lemma_with_token_wf, FaceId, FaceView, InterestId,
    InterestMode, NodeId, RemoteInterest, Resource, ResourceId, SessionContext, Tables, TablesView,
    TokenId, WhatAmI, INITIAL_INTEREST_ID,
};

verus! {

/// What becomes of one face, and what is sent on it.
#[verifier::ext_equal]
pub struct FaceStep {
    pub face: FaceView,
    pub sent: Seq<RoutedDeclare>,
}

/// What becomes of the tables, and what is sent.
#[verifier::ext_equal]
pub struct Step {
    pub tables: TablesView,
    pub sent: Seq<RoutedDeclare>,
}

/// Nothing changes and nothing is sent.
pub open spec fn idle(t: TablesView) -> Step {
    Step { tables: t, sent: Seq::empty() }
}

/// The first `n` faces that the tables list take the step that `step` gives for them.
pub open spec fn each_listed_upto(
    t: TablesView,
    step: spec_fn(FaceId) -> FaceStep,
    n: int,
) -> Step {
    Step {
        tables: TablesView {
            faces: Seq::new(
                t.faces.len(),
                |i: int|
                    if i < n && t.faces[i].listed {
                        step(i as FaceId).face
                    } else {
                        t.faces[i]
                    },
            ),
            ..t
        },
        sent: sent_upto(t, step, n),
    }
}

/// What is sent by the steps of the first `n` faces that the tables list.
pub open spec fn sent_upto(
    t: TablesView,
    step: spec_fn(FaceId) -> FaceStep,
    n: int,
) -> Seq<RoutedDeclare>
    decreases n,
{
    if n <= 0 {
        Seq::empty()
    } else if t.faces[n - 1].listed {
        sent_upto(t, step, n - 1) + step((n - 1) as FaceId).sent
    } else {
        sent_upto(t, step, n - 1)
    }
}

/// Every face that the tables list takes the step that `step` gives for it.
pub open spec fn each_listed(t: TablesView, step: spec_fn(FaceId) -> FaceStep) -> Step {
    each_listed_upto(t, step, t.faces.len() as int)
}

/// No face is known to carry the token on `res` to `dst` already: none that declared it, is not
/// `src`, is not `dst` itself unless that leads back to this node, and is a client or faces one.
pub open spec fn is_new_token(t: TablesView, res: ResourceId, src: FaceId, dst: FaceId) -> bool {
    !exists|f: FaceId|
        {
            &&& #[trigger] t.declares(res, f)
            &&& f != src
            &&& f != dst || t.is_local(dst)
            &&& t.is_client(f) || t.is_client(dst)
        }
}

/// The token on `res` that came from `src` is owed to `dst`: tokens do not go back where they
/// came from unless that is this node, are not declared twice, and pass only from or to clients.
pub open spec fn should_offer(t: TablesView, dst: FaceId, res: ResourceId, src: FaceId) -> bool {
    &&& src != dst || t.is_local(dst)
    &&& !has_key(t.faces[dst as int].local_tokens, res)
    &&& t.is_client(src) || t.is_client(dst)
    &&& is_new_token(t, res, src, dst)
}

/// The interest is about `res`.
pub open spec fn interest_covers(t: TablesView, i: RemoteInterest, res: ResourceId) -> bool {
    i.res matches Some(r) ==> t.matches(r, res)
}

/// The interest calls for the token on `res`. A token that answers an interest
/// (`src_interest_id`) is of no use to one that asks for declarations to come only.
pub open spec fn interest_wants(
    t: TablesView,
    i: RemoteInterest,
    res: ResourceId,
    src_interest_id: Option<InterestId>,
) -> bool {
    &&& i.options.tokens
    &&& interest_covers(t, i, res)
    &&& i.mode.wants_current() || src_interest_id is None
}

/// The resource on which the interest is told about a token on `res`.
pub open spec fn interest_target(i: RemoteInterest, res: ResourceId) -> ResourceId {
    match i.res {
        Some(r) if i.options.aggregate => r,
        _ => res,
    }
}

/// The resources on which `dst` is told about a token on `res`: a client is told what its
/// interests call for, any other face is told about the resource itself.
pub open spec fn offer_targets(
    t: TablesView,
    dst: FaceId,
    res: ResourceId,
    src_interest_id: Option<InterestId>,
) -> Seq<ResourceId> {
    if t.is_client(dst) {
        t.faces[dst as int].remote_interests.filter(
            |e: (InterestId, RemoteInterest)| interest_wants(t, e.1, res, src_interest_id),
        ).map_values(|e: (InterestId, RemoteInterest)| interest_target(e.1, res))
    } else {
        seq![res]
    }
}

/// Tokens on `targets` are declared on `face`, those that are there already excepted.
pub open spec fn announce(
    face: FaceId,
    f: FaceView,
    targets: Seq<ResourceId>,
    interest_id: Option<InterestId>,
) -> FaceStep
    decreases targets.len(),
{
    if targets.len() == 0 {
        FaceStep { face: f, sent: Seq::empty() }
    } else {
        let before = announce(face, f, targets.drop_last(), interest_id);
        let res = targets.last();
        if has_key(before.face.local_tokens, res) {
            before
        } else {
            FaceStep {
                face: before.face.with_token(res),
                sent: before.sent.push(
                    RoutedDeclare::declares_token(face, before.face.next_id, res, interest_id),
                ),
            }
        }
    }
}

/// The token on `res` that came from `src` is offered to `dst`.
pub open spec fn offer(
    t: TablesView,
    dst: FaceId,
    res: ResourceId,
    src: FaceId,
    src_interest_id: Option<InterestId>,
    dst_interest_id: Option<InterestId>,
) -> FaceStep {
    let f = t.faces[dst as int];
    if should_offer(t, dst, res, src) {
        announce(dst, f, offer_targets(t, dst, res, src_interest_id), dst_interest_id)
    } else {
        FaceStep { face: f, sent: Seq::empty() }
    }
}

/// The token on `res` that came from `src` is offered to every face that the tables list.
pub open spec fn propagate(
    t: TablesView,
    res: ResourceId,
    src: FaceId,
    interest_id: Option<InterestId>,
) -> Step {
    each_listed(t, |dst: FaceId| offer(t, dst, res, src, interest_id, None))
}

/// One more face takes its step.
proof fn lemma_each_listed_step(t: TablesView, step: spec_fn(FaceId) -> FaceStep, n: int)
    requires
        t.wf(),
        0 <= n < t.faces.len(),
    ensures
        t.faces[n].listed ==> each_listed_upto(t, step, n + 1) == (Step {
            tables: each_listed_upto(t, step, n).tables.with_face(
                n as FaceId,
                step(n as FaceId).face,
            ),
            sent: each_listed_upto(t, step, n).sent + step(n as FaceId).sent,
        }),
        !t.faces[n].listed ==> each_listed_upto(t, step, n + 1) == each_listed_upto(t, step, n),
{
    let a = each_listed_upto(t, step, n);
    let b = each_listed_upto(t, step, n + 1);
    if t.faces[n].listed {
        assert(b.tables.faces =~= a.tables.faces.update(n, step(n as FaceId).face));
    } else {
        assert(b.tables.faces =~= a.tables.faces);
    }
}

/// Before any face takes its step nothing has changed.
proof fn lemma_each_listed_start(t: TablesView, step: spec_fn(FaceId) -> FaceStep)
    ensures
        each_listed_upto(t, step, 0) == idle(t),
{
    assert(each_listed_upto(t, step, 0).tables.faces =~= t.faces);
}

/// Declaring tokens on known resources keeps a face in order and leaves its profile alone.
pub proof fn lemma_announce_wf(
    t: TablesView,
    face: FaceId,
    f: FaceView,
    targets: Seq<ResourceId>,
    interest_id: Option<InterestId>,
)
    requires
        t.face_wf(f),
        forall|i: int| 0 <= i < targets.len() ==> t.has_resource(#[trigger] targets[i]),
    ensures
        t.face_wf(announce(face, f, targets, interest_id).face),
        ({
            let g = announce(face, f, targets, interest_id).face;
            g == (FaceView { local_tokens: g.local_tokens, next_id: g.next_id, ..f })
        }),
    decreases targets.len(),
{
    if targets.len() > 0 {
        lemma_announce_wf(t, face, f, targets.drop_last(), interest_id);
        let before = announce(face, f, targets.drop_last(), interest_id);
        assert(t.has_resource(targets[targets.len() - 1]));
        lemma_with_token_wf(t, before.face, targets.last());
    }
}

/// What a face is told about is known to the tables.
pub proof fn lemma_offer_targets(
    t: TablesView,
    dst: FaceId,
    res: ResourceId,
    src_interest_id: Option<InterestId>,
)
    requires
        t.wf(),
        t.has_face(dst),
        t.has_resource(res),
    ensures
        forall|i: int|
            0 <= i < offer_targets(t, dst, res, src_interest_id).len() ==> t.has_resource(
                #[trigger] offer_targets(t, dst, res, src_interest_id)[i],
            ),
{
    if t.is_client(dst) {
        let s = t.faces[dst as int].remote_interests;
        let wanted = |e: (InterestId, RemoteInterest)| interest_wants(t, e.1, res, src_interest_id);
        let kept = s.filter(wanted);
        assert(t.face_wf(t.faces[dst as int]));
        assert forall|i: int| 0 <= i < kept.len() implies t.has_resource(
            interest_target(#[trigger] kept[i].1, res),
        ) by {
            assert(kept.contains(kept[i]));
            s.lemma_filter_contains_rev(wanted, kept[i]);
        }
    }
}

/// What a face is told about depends on its interests alone.
pub proof fn lemma_targets_frame(
    t: TablesView,
    u: TablesView,
    dst: FaceId,
    res: ResourceId,
    src_interest_id: Option<InterestId>,
)
    requires
        t.resources == u.resources,
        t.faces[dst as int].whatami == u.faces[dst as int].whatami,
        t.faces[dst as int].remote_interests == u.faces[dst as int].remote_interests,
    ensures
        offer_targets(t, dst, res, src_interest_id) == offer_targets(u, dst, res, src_interest_id),
{
    let a = |e: (InterestId, RemoteInterest)| interest_wants(t, e.1, res, src_interest_id);
    let b = |e: (InterestId, RemoteInterest)| interest_wants(u, e.1, res, src_interest_id);
    assert(a =~= b);
}

/// Whether a token is news to a face depends on nothing but who is there.
pub proof fn lemma_new_token_frame(
    t: TablesView,
    u: TablesView,
    res: ResourceId,
    src: FaceId,
    dst: FaceId,
)
    requires
        t.wf(),
        t.same_network(u),
        t.has_face(dst),
        t.has_resource(res),
    ensures
        is_new_token(t, res, src, dst) == is_new_token(u, res, src, dst),
{
    assert(t.resource_wf(t.resources[res as int]));
    assert forall|f: FaceId| #[trigger] t.declares(res, f) implies t.has_face(f) by {
        lemma_key_pos(t.resources[res as int].session_ctxs, f);
    }
    assert forall|f: FaceId| #[trigger] t.declares(res, f) == u.declares(res, f) by {}
    assert forall|f: FaceId| t.has_face(f) implies #[trigger] t.is_client(f) == u.is_client(f) by {
        assert(t.faces[f as int].whatami == u.faces[f as int].whatami);
    }
    assert(t.is_local(dst) == u.is_local(dst));
    if !is_new_token(t, res, src, dst) {
        let f = choose|f: FaceId|
            {
                &&& #[trigger] t.declares(res, f)
                &&& f != src
                &&& f != dst || t.is_local(dst)
                &&& t.is_client(f) || t.is_client(dst)
            };
        assert(u.declares(res, f));
    }
    if !is_new_token(u, res, src, dst) {
        let f = choose|f: FaceId|
            {
                &&& #[trigger] u.declares(res, f)
                &&& f != src
                &&& f != dst || u.is_local(dst)
                &&& u.is_client(f) || u.is_client(dst)
            };
        assert(t.declares(res, f));
    }
}

/// An offer reads nothing of the tables but who is there and what the offered face holds.
proof fn lemma_offer_frame(
    t: TablesView,
    u: TablesView,
    dst: FaceId,
    res: ResourceId,
    src: FaceId,
    src_interest_id: Option<InterestId>,
    dst_interest_id: Option<InterestId>,
)
    requires
        t.wf(),
        t.same_network(u),
        t.has_face(dst),
        t.has_face(src),
        t.has_resource(res),
        t.faces[dst as int] == u.faces[dst as int],
    ensures
        offer(t, dst, res, src, src_interest_id, dst_interest_id) == offer(
            u,
            dst,
            res,
            src,
            src_interest_id,
            dst_interest_id,
        ),
{
    lemma_new_token_frame(t, u, res, src, dst);
    assert(t.faces[src as int].whatami == u.faces[src as int].whatami);
    lemma_targets_frame(t, u, dst, res, src_interest_id);
}

/// Whether the token on `res` that `src_face` declared is news to `dst_face`.
pub fn new_token(tables: &Tables, res: ResourceId, src_face: FaceId, dst_face: FaceId) -> (r: bool)
    requires
        tables@.wf(),
        tables@.has_resource(res),
        tables@.has_face(src_face),
        tables@.has_face(dst_face),
    ensures
        r == is_new_token(tables@, res, src_face, dst_face),
{
    let ghost t = tables@;
    let ghost ctxs = t.resources[res as int].session_ctxs;
    let n = tables.resources[res].session_ctxs.entries.len();
    proof {
        assert(t.resource_wf(t.resources[res as int]));
    }
    for i in 0..n
        invariant
            t == tables@,
            t.wf(),
            t.has_resource(res),
            t.has_face(dst_face),
            ctxs == t.resources[res as int].session_ctxs,
            t.resource_wf(t.resources[res as int]),
            n == ctxs.len(),
            forall|j: int|
                0 <= j < i ==> !{
                    &&& (#[trigger] ctxs[j]).1.token
                    &&& ctxs[j].0 != src_face
                    &&& ctxs[j].0 != dst_face || t.is_local(dst_face)
                    &&& t.is_client(ctxs[j].0) || t.is_client(dst_face)
                },
    {
        let (face, ctx) = tables.resources[res].session_ctxs.entries[i];
        proof {
            assert(ctxs[i as int] == (face, ctx));
        }
        if ctx.token && face != src_face && (face != dst_face || tables.faces[dst_face].zid
            == tables.zid) && (tables.faces[face].whatami == WhatAmI::Client
            || tables.faces[dst_face].whatami == WhatAmI::Client) {
            proof {
                lemma_lookup_at(ctxs, i as int);
                assert(t.declares(res, face));
            }
            return false;
        }
    }
    proof {
        if !is_new_token(t, res, src_face, dst_face) {
            let f = choose|f: FaceId|
                {
                    &&& #[trigger] t.declares(res, f)
                    &&& f != src_face
                    &&& f != dst_face || t.is_local(dst_face)
                    &&& t.is_client(f) || t.is_client(dst_face)
                };
            lemma_key_pos(ctxs, f);
            assert(ctxs[key_pos(ctxs, f)].1.token);
        }
    }
    true
}

/// The interest is about `res`.
fn covers(tables: &Tables, i: &RemoteInterest, res: ResourceId) -> (r: bool)
    requires
        tables@.interest_wf(*i),
        i.options.tokens,
    ensures
        r == interest_covers(tables@, *i, res),
{
    match i.res {
        Some(r) => tables.resources[r].matches(res),
        None => true,
    }
}

/// The resources on which the client `dst_face` is told about a token on `res`.
fn matching_interests(
    tables: &Tables,
    dst_face: FaceId,
    res: ResourceId,
    src_interest_id: Option<InterestId>,
) -> (targets: Vec<ResourceId>)
    requires
        tables@.wf(),
        tables@.has_face(dst_face),
        tables@.is_client(dst_face),
    ensures
        targets@ == offer_targets(tables@, dst_face, res, src_interest_id),
{
    let ghost t = tables@;
    let ghost s = t.faces[dst_face as int].remote_interests;
    let ghost wanted = |e: (InterestId, RemoteInterest)|
        interest_wants(t, e.1, res, src_interest_id);
    let ghost target = |e: (InterestId, RemoteInterest)| interest_target(e.1, res);
    let mut targets: Vec<ResourceId> = Vec::new();
    let n = tables.faces[dst_face].remote_interests.entries.len();
    proof {
        lemma_take_ends(s, wanted);
        assert(t.face_wf(t.faces[dst_face as int]));
    }
    for k in 0..n
        invariant
            t == tables@,
            t.has_face(dst_face),
            t.face_wf(t.faces[dst_face as int]),
            s == t.faces[dst_face as int].remote_interests,
            wanted == (|e: (InterestId, RemoteInterest)|
                interest_wants(t, e.1, res, src_interest_id)),
            target == (|e: (InterestId, RemoteInterest)| interest_target(e.1, res)),
            n == s.len(),
            targets@ == s.take(k as int).filter(wanted).map_values(target),
    {
        let i = tables.faces[dst_face].remote_interests.entries[k].1;
        proof {
            assert(s[k as int].1 == i);
            lemma_filter_step(s, wanted, k as int);
        }
        if i.options.tokens && covers(tables, &i, res) && (i.mode.current()
            || src_interest_id.is_none()) {
            let r = match i.res {
                Some(r) if i.options.aggregate => r,
                _ => res,
            };
            targets.push(r);
        }
    }
    targets
}

/// Declares the token on `res`, which came from `src_face`, on `dst_face` if it is owed there.
pub fn propagate_simple_token_to(
    tables: &mut Tables,
    dst_face: FaceId,
    res: ResourceId,
    src_face: FaceId,
    src_interest_id: Option<InterestId>,
    dst_interest_id: Option<InterestId>,
    send_declare: &mut Vec<RoutedDeclare>,
)
    requires
        old(tables)@.wf(),
        old(tables)@.has_face(dst_face),
        old(tables)@.has_face(src_face),
        old(tables)@.has_resource(res),
    ensures
        ({
            let step = offer(
                old(tables)@,
                dst_face,
                res,
                src_face,
                src_interest_id,
                dst_interest_id,
            );
            &&& final(tables)@ == old(tables)@.with_face(dst_face, step.face)
            &&& final(send_declare)@ == old(send_declare)@ + step.sent
        }),
        final(tables)@.wf(),
{
    let ghost t = tables@;
    let ghost sent = send_declare@;
    let ghost f = t.faces[dst_face as int];
    if (src_face != dst_face || tables.faces[dst_face].zid == tables.zid)
        && !tables.faces[dst_face].local_tokens.contains_key(res) && (
    tables.faces[src_face].whatami == WhatAmI::Client || tables.faces[dst_face].whatami
        == WhatAmI::Client) && new_token(tables, res, src_face, dst_face) {
        if tables.faces[dst_face].whatami != WhatAmI::Client {
            let id = tables.add_local_token(dst_face, res);
            send_declare.push(RoutedDeclare::declare_token(dst_face, id, res, dst_interest_id));
            proof {
                assert(seq![res].drop_last() =~= Seq::<ResourceId>::empty());
                reveal_with_fuel(announce, 2);
            }
        } else {
            let targets = matching_interests(tables, dst_face, res, src_interest_id);
            proof {
                lemma_offer_targets(t, dst_face, res, src_interest_id);
                assert(targets@.take(0) =~= Seq::<ResourceId>::empty());
                assert(t.faces.update(dst_face as int, f) =~= t.faces);
            }
            for k in 0..targets.len()
                invariant
                    t.wf(),
                    t.has_face(dst_face),
                    f == t.faces[dst_face as int],
                    forall|i: int|
                        0 <= i < targets.len() ==> t.has_resource(#[trigger] targets@[i]),
                    tables@ == t.with_face(
                        dst_face,
                        announce(dst_face, f, targets@.take(k as int), dst_interest_id).face,
                    ),
                    send_declare@ == sent + announce(
                        dst_face,
                        f,
                        targets@.take(k as int),
                        dst_interest_id,
                    ).sent,
                    tables@.wf(),
            {
                let target = targets[k];
                proof {
                    assert(targets@.take(k + 1).drop_last() =~= targets@.take(k as int));
                    assert(t.has_resource(targets@[k as int]));
                    let a = announce(dst_face, f, targets@.take(k as int), dst_interest_id);
                    assert(tables@.faces[dst_face as int] == a.face);
                }
                if !tables.faces[dst_face].local_tokens.contains_key(target) {
                    let id = tables.add_local_token(dst_face, target);
                    send_declare.push(
                        RoutedDeclare::declare_token(dst_face, id, target, dst_interest_id),
                    );
                    proof {
                        let a = announce(dst_face, f, targets@.take(k as int), dst_interest_id);
                        let b = announce(dst_face, f, targets@.take(k + 1), dst_interest_id);
                        assert(b.sent == a.sent.push(
                            RoutedDeclare::declares_token(dst_face, id, target, dst_interest_id),
                        ));
                        assert(send_declare@ =~= sent + b.sent);
                        assert(tables@.faces =~= t.faces.update(dst_face as int, b.face));
                    }
                }
            }
            proof {
                assert(targets@.take(targets.len() as int) =~= targets@);
            }
        }
    } else {
        proof {
            assert(t.faces.update(dst_face as int, f) =~= t.faces);
            assert(sent + Seq::<RoutedDeclare>::empty() =~= sent);
        }
    }
}

/// Declares the token on `res`, which came from `src_face`, on every face it is owed to.
pub fn propagate_simple_token(
    tables: &mut Tables,
    res: ResourceId,
    src_face: FaceId,
    interest_id: Option<InterestId>,
    send_declare: &mut Vec<RoutedDeclare>,
)
    requires
        old(tables)@.wf(),
        old(tables)@.has_face(src_face),
        old(tables)@.has_resource(res),
    ensures
        final(tables)@ == propagate(old(tables)@, res, src_face, interest_id).tables,
        final(send_declare)@ == old(send_declare)@ + propagate(
            old(tables)@,
            res,
            src_face,
            interest_id,
        ).sent,
        final(tables)@.wf(),
{
    let ghost t = tables@;
    let ghost sent = send_declare@;
    let ghost step = |dst: FaceId| offer(t, dst, res, src_face, interest_id, None);
    let n = tables.faces.len();
    proof {
        lemma_each_listed_start(t, step);
    }
    for dst_face in 0..n
        invariant
            t.wf(),
            t.has_face(src_face),
            t.has_resource(res),
            n == t.faces.len(),
            step == (|dst: FaceId| offer(t, dst, res, src_face, interest_id, None)),
            tables@ == each_listed_upto(t, step, dst_face as int).tables,
            send_declare@ == sent + each_listed_upto(t, step, dst_face as int).sent,
            t.same_network(tables@),
            tables@.wf(),
    {
        proof {
            lemma_each_listed_step(t, step, dst_face as int);
        }
        if tables.faces[dst_face].listed {
            proof {
                lemma_offer_frame(t, tables@, dst_face, res, src_face, interest_id, None);
                lemma_offer_targets(t, dst_face, res, interest_id);
                lemma_announce_wf(
                    t,
                    dst_face,
                    t.faces[dst_face as int],
                    offer_targets(t, dst_face, res, interest_id),
                    None,
                );
            }
            propagate_simple_token_to(
                tables,
                dst_face,
                res,
                src_face,
                interest_id,
                None,
                send_declare,
            );
        }
    }
}

/// `face` declared a token on `res` under `id`, and both remember it.
pub open spec fn registered(t: TablesView, face: FaceId, id: TokenId, res: ResourceId) -> TablesView {
    t.with_ctx(res, face, SessionContext { token: true }).with_face(
        face,
        t.faces[face as int].with_remote_token(id, res),
    )
}

/// Remembers that `face` declared a token on `res` under `id`.
pub fn register_simple_token(tables: &mut Tables, face: FaceId, id: TokenId, res: ResourceId)
    requires
        old(tables)@.wf(),
        old(tables)@.has_face(face),
        old(tables)@.has_resource(res),
    ensures
        final(tables)@ == registered(old(tables)@, face, id, res),
        final(tables)@.wf(),
{
    tables.set_token(res, face, true);
    tables.add_remote_token(face, id, res);
}

/// The number that stands for the token on `res` towards a face: one that is kept where
/// declarations to come are asked for, and none otherwise.
pub open spec fn id_for(f: FaceView, res: ResourceId, mode: InterestMode) -> TokenId {
    if mode.wants_future() {
        match lookup(f.local_tokens, res) {
            Some(id) => id,
            None => f.next_id,
        }
    } else {
        0
    }
}

/// What becomes of the face for which such a number was made.
pub open spec fn with_id_for(f: FaceView, res: ResourceId, mode: InterestMode) -> FaceView {
    if mode.wants_future() && !has_key(f.local_tokens, res) {
        f.with_token(res)
    } else {
        f
    }
}

/// The number under which the token on `res` is declared on `face` in answer to an interest.
pub fn make_token_id(
    tables: &mut Tables,
    res: ResourceId,
    face: FaceId,
    mode: InterestMode,
) -> (id: TokenId)
    requires
        old(tables)@.wf(),
        old(tables)@.has_face(face),
        old(tables)@.has_resource(res),
    ensures
        id == id_for(old(tables)@.faces[face as int], res, mode),
        final(tables)@ == old(tables)@.with_face(
            face,
            with_id_for(old(tables)@.faces[face as int], res, mode),
        ),
        final(tables)@.wf(),
{
    let ghost t = tables@;
    proof {
        assert(t.faces.update(face as int, t.faces[face as int]) =~= t.faces);
    }
    if mode.future() {
        match tables.faces[face].local_tokens.get(res) {
            Some(id) => id,
            None => tables.add_local_token(face, res),
        }
    } else {
        0
    }
}

/// What the arrival of a token amounts to.
#[derive(Clone, Copy, PartialEq, Eq, Structural, Debug)]
pub enum DeclareOutcome {
    /// It answers an interest that was forwarded for another face, and went on to that face.
    Answered,
    /// It answers an interest that was never sent, and was ignored.
    UnknownInterest,
    /// It was registered and offered to the other faces.
    Propagated,
}

/// What the arrival of a token on `face` in answer to `interest_id` amounts to.
pub open spec fn declare_outcome(
    t: TablesView,
    face: FaceId,
    interest_id: Option<InterestId>,
) -> DeclareOutcome {
    let f = t.faces[face as int];
    match interest_id {
        Some(i) if has_key(f.pending_current_interests, i) => DeclareOutcome::Answered,
        Some(i) if !f.local_interests.contains(i) => DeclareOutcome::UnknownInterest,
        _ => DeclareOutcome::Propagated,
    }
}

/// The remote end of `face` declares a token on `res` under `id`.
pub open spec fn declared(
    t: TablesView,
    face: FaceId,
    id: TokenId,
    res: ResourceId,
    interest_id: Option<InterestId>,
) -> Step {
    match declare_outcome(t, face, interest_id) {
        DeclareOutcome::Answered => {
            let interest = lookup(
                t.faces[face as int].pending_current_interests,
                interest_id->0,
            )->0;
            let u = if interest.mode == InterestMode::CurrentFuture {
                registered(t, face, id, res)
            } else {
                t
            };
            let src = u.faces[interest.src_face as int];
            Step {
                tables: u.with_face(interest.src_face, with_id_for(src, res, interest.mode)),
                sent: seq![
                    RoutedDeclare::answers_interest(
                        interest.src_face,
                        id_for(src, res, interest.mode),
                        res,
                        interest.src_interest_id,
                    ),
                ],
            }
        },
        DeclareOutcome::UnknownInterest => idle(t),
        DeclareOutcome::Propagated => {
            propagate(registered(t, face, id, res), res, face, interest_id)
        },
    }
}

/// `i` is among `s`.
fn contains_id(s: &Vec<InterestId>, i: InterestId) -> (r: bool)
    ensures
        r == s@.contains(i),
{
    for k in 0..s.len()
        invariant
            forall|j: int| 0 <= j < k ==> s@[j] != i,
    {
        if s[k] == i {
            assert(s@.contains(i));
            return true;
        }
    }
    false
}

/// Handles a token that the remote end of `face` declared on `res` under `id`.
pub fn declare_simple_token(
    tables: &mut Tables,
    face: FaceId,
    id: TokenId,
    res: ResourceId,
    interest_id: Option<InterestId>,
    send_declare: &mut Vec<RoutedDeclare>,
) -> (outcome: DeclareOutcome)
    requires
        old(tables)@.wf(),
        old(tables)@.has_face(face),
        old(tables)@.has_resource(res),
    ensures
        outcome == declare_outcome(old(tables)@, face, interest_id),
        final(tables)@ == declared(old(tables)@, face, id, res, interest_id).tables,
        final(send_declare)@ == old(send_declare)@ + declared(
            old(tables)@,
            face,
            id,
            res,
            interest_id,
        ).sent,
        final(tables)@.wf(),
{
    let ghost t = tables@;
    let ghost sent = send_declare@;
    if let Some(interest_id) = interest_id {
        match tables.faces[face].pending_current_interests.get(interest_id) {
            Some(interest) => {
                proof {
                    let s = t.faces[face as int].pending_current_interests;
                    assert(t.face_wf(t.faces[face as int]));
                    lemma_key_pos(s, interest_id);
                }
                if interest.mode == InterestMode::CurrentFuture {
                    register_simple_token(tables, face, id, res);
                }
                let id = make_token_id(tables, res, interest.src_face, interest.mode);
                send_declare.push(
                    RoutedDeclare::answer_interest(
                        interest.src_face,
                        id,
                        res,
                        interest.src_interest_id,
                    ),
                );
                return DeclareOutcome::Answered;
            },
            None => {
                if !contains_id(&tables.faces[face].local_interests, interest_id) {
                    proof {
                        assert(sent + Seq::<RoutedDeclare>::empty() =~= sent);
                    }
                    return DeclareOutcome::UnknownInterest;
                }
            },
        }
    }
    register_simple_token(tables, face, id, res);
    propagate_simple_token(tables, res, face, interest_id, send_declare);
    DeclareOutcome::Propagated
}

/// The faces that declared a token on a resource, in the order in which it learned of them.
pub open spec fn token_faces(ctxs: Seq<(FaceId, SessionContext)>) -> Seq<FaceId> {
    ctxs.filter(|e: (FaceId, SessionContext)| e.1.token).map_values(
        |e: (FaceId, SessionContext)| e.0,
    )
}

/// The faces that declared a token on `res`.
pub fn simple_tokens(res: &Resource) -> (faces: Vec<FaceId>)
    ensures
        faces@ == token_faces(res@.session_ctxs),
{
    let ghost s = res.session_ctxs@;
    let ghost keep = |e: (FaceId, SessionContext)| e.1.token;
    let ghost face = |e: (FaceId, SessionContext)| e.0;
    let mut faces: Vec<FaceId> = Vec::new();
    proof {
        lemma_take_ends(s, keep);
    }
    for i in 0..res.session_ctxs.entries.len()
        invariant
            s == res.session_ctxs@,
            keep == (|e: (FaceId, SessionContext)| e.1.token),
            face == (|e: (FaceId, SessionContext)| e.0),
            faces@ == s.take(i as int).filter(keep).map_values(face),
    {
        proof {
            lemma_filter_step(s, keep, i as int);
        }
        if res.session_ctxs.entries[i].1.token {
            faces.push(res.session_ctxs.entries[i].0);
        }
    }
    faces
}

/// Some face other than `face` declared a token on `res`; `face` itself counts where it leads
/// back to this node.
pub open spec fn has_remote_token(t: TablesView, res: ResourceId, face: FaceId) -> bool {
    exists|f: FaceId| #[trigger] t.declares(res, f) && (f != face || t.is_local(face))
}

/// Whether `face` is owed the token on `res`.
pub fn remote_simple_tokens(tables: &Tables, res: ResourceId, face: FaceId) -> (r: bool)
    requires
        tables@.wf(),
        tables@.has_resource(res),
        tables@.has_face(face),
    ensures
        r == has_remote_token(tables@, res, face),
{
    let ghost t = tables@;
    let ghost ctxs = t.resources[res as int].session_ctxs;
    let n = tables.resources[res].session_ctxs.entries.len();
    proof {
        assert(t.resource_wf(t.resources[res as int]));
    }
    for i in 0..n
        invariant
            t == tables@,
            t.has_resource(res),
            t.has_face(face),
            ctxs == t.resources[res as int].session_ctxs,
            unique_keys(ctxs),
            n == ctxs.len(),
            forall|j: int|
                0 <= j < i ==> !((ctxs[j].0 != face || t.is_local(face)) && (
                #[trigger] ctxs[j]).1.token),
    {
        let (f, ctx) = tables.resources[res].session_ctxs.entries[i];
        proof {
            assert(ctxs[i as int] == (f, ctx));
        }
        if (f != face || tables.faces[face].zid == tables.zid) && ctx.token {
            proof {
                lemma_lookup_at(ctxs, i as int);
                assert(t.declares(res, f));
            }
            return true;
        }
    }
    proof {
        if has_remote_token(t, res, face) {
            let f = choose|f: FaceId|
                #[trigger] t.declares(res, f) && (f != face || t.is_local(face));
            lemma_key_pos(ctxs, f);
            assert(ctxs[key_pos(ctxs, f)].1.token);
        }
    }
    false
}

/// Some token that `face` is owed matches `res`.
pub open spec fn is_backed(t: TablesView, res: ResourceId, face: FaceId) -> bool {
    exists|m: ResourceId|
        #[trigger] t.matches(res, m) && t.has_context(m) && has_remote_token(t, m, face)
}

/// Some interest of `face` asks for each token on `res` by itself.
pub open spec fn is_watched(t: TablesView, face: FaceId, res: ResourceId) -> bool {
    let s = t.faces[face as int].remote_interests;
    exists|k: int|
        0 <= k < s.len() && (#[trigger] s[k]).1.options.tokens && interest_covers(t, s[k].1, res)
            && !s[k].1.options.aggregate
}

/// `face` is told that the token on `res` is gone: under the number it was declared with, or,
/// where it was never declared there but an interest asks for it and the news came from
/// elsewhere, under a fresh number and with the key expression.
pub open spec fn retract(t: TablesView, face: FaceId, res: ResourceId, src: FaceId) -> FaceStep {
    let f = t.faces[face as int];
    match lookup(f.local_tokens, res) {
        Some(id) => FaceStep {
            face: f.without_token(res),
            sent: seq![RoutedDeclare::undeclares_token(face, id, res, WireExpr::Empty)],
        },
        None => if src != face && is_watched(t, face, res) {
            FaceStep {
                face: f.with_number_taken(),
                sent: seq![
                    RoutedDeclare::undeclares_token(face, f.next_id, res, WireExpr::Best(res)),
                ],
            }
        } else {
            FaceStep { face: f, sent: Seq::empty() }
        },
    }
}

/// The tokens declared on a face that nothing backs any more are undeclared.
pub open spec fn purge(t: TablesView, face: FaceId, f: FaceView) -> FaceStep {
    FaceStep {
        face: FaceView {
            local_tokens: f.local_tokens.filter(
                |e: (ResourceId, TokenId)| is_backed(t, e.0, face),
            ),
            ..f
        },
        sent: f.local_tokens.filter(
            |e: (ResourceId, TokenId)| !is_backed(t, e.0, face),
        ).map_values(
            |e: (ResourceId, TokenId)|
                RoutedDeclare::undeclares_token(face, e.1, e.0, WireExpr::Empty),
        ),
    }
}

/// `face` learns that the last token on `res`, which `src` had declared, is gone.
pub open spec fn forget_on(t: TablesView, face: FaceId, res: ResourceId, src: FaceId) -> FaceStep {
    let first = retract(t, face, res, src);
    let then_purged = purge(t, face, first.face);
    FaceStep { face: then_purged.face, sent: first.sent + then_purged.sent }
}

/// Every face that the tables list learns that the last token on `res` is gone.
pub open spec fn propagate_forget(t: TablesView, res: ResourceId, src: FaceId) -> Step {
    each_listed(t, |face: FaceId| forget_on(t, face, res, src))
}

/// What backs a token depends on nothing but who is there.
pub proof fn lemma_backed_frame(t: TablesView, u: TablesView, face: FaceId)
    requires
        t.same_network(u),
        t.has_face(face),
    ensures
        forall|res: ResourceId| #[trigger] is_backed(t, res, face) == is_backed(u, res, face),
{
    assert(t.is_local(face) == u.is_local(face));
    assert forall|m: ResourceId| #[trigger]
        has_remote_token(t, m, face) == has_remote_token(u, m, face) by {
        assert forall|f: FaceId| #[trigger] t.declares(m, f) == u.declares(m, f) by {}
        if has_remote_token(t, m, face) {
            let f = choose|f: FaceId|
                #[trigger] t.declares(m, f) && (f != face || t.is_local(face));
            assert(u.declares(m, f));
        }
        if has_remote_token(u, m, face) {
            let f = choose|f: FaceId|
                #[trigger] u.declares(m, f) && (f != face || u.is_local(face));
            assert(t.declares(m, f));
        }
    }
    assert forall|res: ResourceId| #[trigger] is_backed(t, res, face) == is_backed(
        u,
        res,
        face,
    ) by {
        if is_backed(t, res, face) {
            let m = choose|m: ResourceId|
                #[trigger] t.matches(res, m) && t.has_context(m) && has_remote_token(t, m, face);
            assert(u.matches(res, m));
        }
        if is_backed(u, res, face) {
            let m = choose|m: ResourceId|
                #[trigger] u.matches(res, m) && u.has_context(m) && has_remote_token(u, m, face);
            assert(t.matches(res, m));
        }
    }
}

/// Purging depends on nothing of the tables but who is there.
proof fn lemma_purge_frame(t: TablesView, u: TablesView, face: FaceId, f: FaceView)
    requires
        t.same_network(u),
        t.has_face(face),
    ensures
        purge(t, face, f) == purge(u, face, f),
{
    lemma_backed_frame(t, u, face);
    assert((|e: (ResourceId, TokenId)| is_backed(t, e.0, face)) =~= (|e: (ResourceId, TokenId)|
        is_backed(u, e.0, face)));
    assert((|e: (ResourceId, TokenId)| !is_backed(t, e.0, face)) =~= (|e: (ResourceId, TokenId)|
        !is_backed(u, e.0, face)));
}

/// Forgetting reads nothing of the tables but who is there and what the face itself holds.
proof fn lemma_forget_frame(
    t: TablesView,
    u: TablesView,
    face: FaceId,
    res: ResourceId,
    src: FaceId,
)
    requires
        t.same_network(u),
        t.has_face(face),
        t.faces[face as int] == u.faces[face as int],
    ensures
        forget_on(t, face, res, src) == forget_on(u, face, res, src),
{
    let s = t.faces[face as int].remote_interests;
    assert forall|k: int| 0 <= k < s.len() implies interest_covers(t, #[trigger] s[k].1, res)
        == interest_covers(u, s[k].1, res) by {}
    assert(is_watched(t, face, res) == is_watched(u, face, res));
    lemma_purge_frame(t, u, face, retract(t, face, res, src).face);
}

/// Some entries of a list without double keys make a list without double keys.
pub proof fn lemma_filter_unique<K, V>(s: Seq<(K, V)>, keep: spec_fn((K, V)) -> bool)
    requires
        unique_keys(s),
    ensures
        unique_keys(s.filter(keep)),
        forall|i: int| 0 <= i < s.filter(keep).len() ==> s.contains(#[trigger] s.filter(keep)[i]),
    decreases s.len(),
{
    reveal(Seq::filter);
    if s.len() > 0 {
        let r = s.drop_last();
        lemma_filter_unique(r, keep);
        let a = r.filter(keep);
        let b = s.filter(keep);
        assert forall|i: int| 0 <= i < b.len() implies s.contains(#[trigger] b[i]) by {
            if i < a.len() {
                assert(r.contains(a[i]));
                let j = choose|j: int| 0 <= j < r.len() && r[j] == a[i];
                assert(s[j] == b[i]);
            } else {
                assert(s[s.len() - 1] == b[i]);
            }
        }
        assert forall|i: int, j: int| 0 <= i < j < b.len() implies (#[trigger] b[i]).0 != (
        #[trigger] b[j]).0 by {
            assert(a[i] == b[i]);
            if j < a.len() {
                assert(a[j] == b[j]);
            } else {
                assert(r.contains(a[i]));
                let k = choose|k: int| 0 <= k < r.len() && r[k] == a[i];
                assert(s[k].0 != s[s.len() - 1].0);
            }
        }
    }
}

/// Purging keeps a face in order.
pub proof fn lemma_purge_wf(t: TablesView, face: FaceId, f: FaceView)
    requires
        t.face_wf(f),
    ensures
        t.face_wf(purge(t, face, f).face),
{
    let keep = |e: (ResourceId, TokenId)| is_backed(t, e.0, face);
    lemma_filter_unique(f.local_tokens, keep);
    let kept = f.local_tokens.filter(keep);
    assert forall|i: int| 0 <= i < kept.len() implies t.has_resource((#[trigger] kept[i]).0) by {
        assert(f.local_tokens.contains(kept[i]));
    }
}

/// Whether some token that `face` is owed matches `res`.
fn backed(tables: &Tables, res: ResourceId, face: FaceId) -> (r: bool)
    requires
        tables@.wf(),
        tables@.has_resource(res),
        tables@.has_context(res),
        tables@.has_face(face),
    ensures
        r == is_backed(tables@, res, face),
{
    let ghost t = tables@;
    proof {
        assert(t.resource_wf(t.resources[res as int]));
    }
    match &tables.resources[res].context {
        Some(matches) => {
            for i in 0..matches.len()
                invariant
                    t == tables@,
                    t.wf(),
                    t.has_face(face),
                    t.has_resource(res),
                    t.resources[res as int].context == Some(matches@),
                    t.resource_wf(t.resources[res as int]),
                    forall|j: int|
                        0 <= j < i ==> !(t.has_context(#[trigger] matches@[j])
                            && has_remote_token(t, matches@[j], face)),
            {
                let m = matches[i];
                proof {
                    let known = t.resources[res as int].context->0;
                    assert(t.has_resource(known[i as int]));
                }
                if tables.resources[m].context.is_some() && remote_simple_tokens(tables, m, face) {
                    proof {
                        assert(matches@.contains(m));
                        assert(t.matches(res, m));
                    }
                    return true;
                }
            }
            proof {
                if is_backed(t, res, face) {
                    let m = choose|m: ResourceId|
                        #[trigger] t.matches(res, m) && t.has_context(m) && has_remote_token(
                            t,
                            m,
                            face,
                        );
                    let j = choose|j: int| 0 <= j < matches@.len() && matches@[j] == m;
                    assert(t.has_context(matches@[j]));
                }
            }
            false
        },
        None => false,
    }
}

/// Whether some interest of `face` asks for each token on `res` by itself.
fn watched(tables: &Tables, face: FaceId, res: ResourceId) -> (r: bool)
    requires
        tables@.wf(),
        tables@.has_face(face),
    ensures
        r == is_watched(tables@, face, res),
{
    let ghost t = tables@;
    let ghost s = t.faces[face as int].remote_interests;
    let n = tables.faces[face].remote_interests.entries.len();
    proof {
        assert(t.face_wf(t.faces[face as int]));
    }
    for k in 0..n
        invariant
            t == tables@,
            t.has_face(face),
            t.face_wf(t.faces[face as int]),
            s == t.faces[face as int].remote_interests,
            n == s.len(),
            forall|j: int|
                0 <= j < k ==> !((#[trigger] s[j]).1.options.tokens && interest_covers(
                    t,
                    s[j].1,
                    res,
                ) && !s[j].1.options.aggregate),
    {
        let i = tables.faces[face].remote_interests.entries[k].1;
        proof {
            assert(s[k as int].1 == i);
        }
        if i.options.tokens && covers(tables, &i, res) && !i.options.aggregate {
            return true;
        }
    }
    false
}

/// Undeclares the tokens on `face` that nothing backs any more.
fn purge_local_tokens(tables: &mut Tables, face: FaceId, send_declare: &mut Vec<RoutedDeclare>)
    requires
        old(tables)@.wf(),
        old(tables)@.has_face(face),
        old(tables)@.local_tokens_matched(face),
    ensures
        ({
            let step = purge(old(tables)@, face, old(tables)@.faces[face as int]);
            &&& final(tables)@ == old(tables)@.with_face(face, step.face)
            &&& final(send_declare)@ == old(send_declare)@ + step.sent
        }),
        final(tables)@.wf(),
{
    let ghost t = tables@;
    let ghost sent = send_declare@;
    let ghost f = t.faces[face as int];
    let ghost s = f.local_tokens;
    let ghost keep = |e: (ResourceId, TokenId)| is_backed(t, e.0, face);
    let ghost gone = |e: (ResourceId, TokenId)| !is_backed(t, e.0, face);
    let ghost undeclare = |e: (ResourceId, TokenId)|
        RoutedDeclare::undeclares_token(face, e.1, e.0, WireExpr::Empty);
    let mut kept: Vec<(ResourceId, TokenId)> = Vec::new();
    let n = tables.faces[face].local_tokens.entries.len();
    proof {
        lemma_take_ends(s, keep);
        lemma_take_ends(s, gone);
        assert(t.face_wf(f));
        assert(send_declare@ =~= sent + s.take(0).filter(gone).map_values(undeclare));
    }
    for i in 0..n
        invariant
            t == tables@,
            t.wf(),
            t.has_face(face),
            t.local_tokens_matched(face),
            f == t.faces[face as int],
            t.face_wf(f),
            s == f.local_tokens,
            n == s.len(),
            keep == (|e: (ResourceId, TokenId)| is_backed(t, e.0, face)),
            gone == (|e: (ResourceId, TokenId)| !is_backed(t, e.0, face)),
            undeclare == (|e: (ResourceId, TokenId)|
                RoutedDeclare::undeclares_token(face, e.1, e.0, WireExpr::Empty)),
            kept@ == s.take(i as int).filter(keep),
            send_declare@ == sent + s.take(i as int).filter(gone).map_values(undeclare),
    {
        let (res, id) = tables.faces[face].local_tokens.entries[i];
        proof {
            assert(s[i as int] == (res, id));
            lemma_filter_step(s, keep, i as int);
            lemma_filter_step(s, gone, i as int);
        }
        if !backed(tables, res, face) {
            send_declare.push(RoutedDeclare::undeclare_token(face, id, res, WireExpr::Empty));
            proof {
                assert(send_declare@ =~= sent + s.take(i + 1).filter(gone).map_values(undeclare));
            }
        } else {
            kept.push((res, id));
        }
    }
    tables.faces[face].local_tokens = Dict { entries: kept };
    proof {
        lemma_purge_wf(t, face, f);
        lemma_with_face_wf(t, face, purge(t, face, f).face);
        assert(tables@ =~= t.with_face(face, purge(t, face, f).face));
    }
}

/// Tells `face` that the last token on `res`, which `src_face` had declared, is gone.
fn forget_simple_token_on(
    tables: &mut Tables,
    face: FaceId,
    res: ResourceId,
    src_face: FaceId,
    send_declare: &mut Vec<RoutedDeclare>,
)
    requires
        old(tables)@.wf(),
        old(tables)@.has_face(face),
        old(tables)@.local_tokens_matched_but(face, res),
    ensures
        ({
            let step = forget_on(old(tables)@, face, res, src_face);
            &&& final(tables)@ == old(tables)@.with_face(face, step.face)
            &&& final(send_declare)@ == old(send_declare)@ + step.sent
            &&& old(tables)@.same_network(final(tables)@)
        }),
        final(tables)@.wf(),
{
    let ghost u = tables@;
    let ghost so_far = send_declare@;
    proof {
        assert(u.face_wf(u.faces[face as int]));
        lemma_removed_subset(u.faces[face as int].local_tokens, res);
        lemma_removed(u.faces[face as int].local_tokens, res);
    }
    match tables.remove_local_token(face, res) {
        Some(id) => {
            send_declare.push(RoutedDeclare::undeclare_token(face, id, res, WireExpr::Empty));
        },
        None => {
            proof {
                assert(u.faces.update(face as int, u.faces[face as int]) =~= u.faces);
                assert(tables@ == u);
            }
            if src_face != face && watched(tables, face, res) {
                // The token was never declared on this face: a number made for this one message
                // and the key expression say which token is meant.
                let id = tables.take_number(face);
                send_declare.push(
                    RoutedDeclare::undeclare_token(face, id, res, WireExpr::Best(res)),
                );
            }
        },
    }
    let ghost v = tables@;
    proof {
        let first = retract(u, face, res, src_face);
        assert(v =~= u.with_face(face, first.face));
        assert(send_declare@ =~= so_far + first.sent);
        assert(u.same_network(v));
        assert(v.local_tokens_matched(face)) by {
            let s = u.faces[face as int].local_tokens;
            let r = removed(s, res);
            assert(v.faces[face as int].local_tokens == r);
            assert forall|i: int| 0 <= i < r.len() implies v.has_context((#[trigger] r[i]).0) by {
                assert(s.contains(r[i]));
                let j = choose|j: int| 0 <= j < s.len() && s[j] == r[i];
                assert(s[j].0 == res || u.has_context(s[j].0));
                assert(has_key(r, r[i].0));
            }
        }
        lemma_purge_frame(u, v, face, first.face);
    }
    purge_local_tokens(tables, face, send_declare);
    proof {
        let done = forget_on(u, face, res, src_face);
        assert(tables@.faces =~= u.faces.update(face as int, done.face));
        assert(send_declare@ =~= so_far + done.sent);
    }
}

/// Matching was computed for all other tokens of this node on the listed faces, which are
/// looked through when the last token on `res` goes.
pub open spec fn can_propagate_forget(t: TablesView, res: ResourceId) -> bool {
    forall|f: FaceId|
        t.has_face(f) && t.faces[f as int].listed ==> #[trigger] t.local_tokens_matched_but(f, res)
}

/// Tells every face that the last token on `res`, which `src_face` had declared, is gone.
pub fn propagate_forget_simple_token(
    tables: &mut Tables,
    res: ResourceId,
    src_face: FaceId,
    send_declare: &mut Vec<RoutedDeclare>,
)
    requires
        old(tables)@.wf(),
        old(tables)@.has_resource(res),
        can_propagate_forget(old(tables)@, res),
    ensures
        final(tables)@ == propagate_forget(old(tables)@, res, src_face).tables,
        final(send_declare)@ == old(send_declare)@ + propagate_forget(
            old(tables)@,
            res,
            src_face,
        ).sent,
        final(tables)@.wf(),
{
    let ghost t = tables@;
    let ghost sent = send_declare@;
    let ghost step = |face: FaceId| forget_on(t, face, res, src_face);
    let n = tables.faces.len();
    proof {
        lemma_each_listed_start(t, step);
    }
    for face in 0..n
        invariant
            t.wf(),
            t.has_resource(res),
            can_propagate_forget(t, res),
            n == t.faces.len(),
            step == (|face: FaceId| forget_on(t, face, res, src_face)),
            tables@ == each_listed_upto(t, step, face as int).tables,
            send_declare@ == sent + each_listed_upto(t, step, face as int).sent,
            t.same_network(tables@),
            tables@.wf(),
    {
        let ghost u = tables@;
        proof {
            lemma_each_listed_step(t, step, face as int);
        }
        if tables.faces[face].listed {
            proof {
                assert(t.local_tokens_matched_but(face, res));
                lemma_forget_frame(t, u, face, res, src_face);
            }
            forget_simple_token_on(tables, face, res, src_face, send_declare);
            proof {
                let next = each_listed_upto(t, step, face + 1);
                assert(send_declare@ =~= sent + next.sent);
            }
        }
    }
}

/// What is left after a removal was there before.
pub proof fn lemma_removed_subset<K, V>(s: Seq<(K, V)>, k: K)
    ensures
        forall|i: int| 0 <= i < removed(s, k).len() ==> s.contains(#[trigger] removed(s, k)[i]),
{
    if has_key(s, k) {
        lemma_key_pos(s, k);
        let p = key_pos(s, k);
        assert forall|i: int| 0 <= i < removed(s, k).len() implies s.contains(
            #[trigger] removed(s, k)[i],
        ) by {
            assert(removed(s, k)[i] == s[if i < p {
                i
            } else {
                i + 1
            }]);
        }
    }
}

/// `res` no longer counts `face` among those that declared a token on it.
pub open spec fn unmarked(t: TablesView, res: ResourceId, face: FaceId) -> TablesView {
    if has_key(t.resources[res as int].session_ctxs, face) {
        t.with_ctx(res, face, SessionContext { token: false })
    } else {
        t
    }
}

/// `face` gives up its token on `res`, unless it declared it under another number as well. The
/// other faces learn of it where it was the last one; where a single face other than a client
/// is left with one, that face need not be told about its own token.
pub open spec fn undeclared(t: TablesView, face: FaceId, res: ResourceId) -> Step {
    if t.faces[face as int].holds_remote_token(res) {
        idle(t)
    } else {
        let u = unmarked(t, res, face);
        let left = token_faces(u.resources[res as int].session_ctxs);
        if left.len() == 0 {
            propagate_forget(u, res, face)
        } else if left.len() == 1 && !u.is_client(left[0]) {
            let step = forget_on(u, left[0], res, left[0]);
            Step { tables: u.with_face(left[0], step.face), sent: step.sent }
        } else {
            idle(u)
        }
    }
}

/// Matching was computed for the tokens of this node that have to be looked through when
/// `face` gives up its token on `res`.
pub open spec fn can_undeclare(t: TablesView, face: FaceId, res: ResourceId) -> bool {
    t.faces[face as int].holds_remote_token(res) || {
        let u = unmarked(t, res, face);
        let left = token_faces(u.resources[res as int].session_ctxs);
        if left.len() == 0 {
            can_propagate_forget(u, res)
        } else if left.len() == 1 && !u.is_client(left[0]) {
            u.local_tokens_matched_but(left[0], res)
        } else {
            true
        }
    }
}

/// The faces that declared a token are faces that the resource knows.
proof fn lemma_token_faces(ctxs: Seq<(FaceId, SessionContext)>)
    requires
        unique_keys(ctxs),
    ensures
        forall|i: int|
            0 <= i < token_faces(ctxs).len() ==> lookup(ctxs, #[trigger] token_faces(ctxs)[i])
                == Some(SessionContext { token: true }),
{
    let keep = |e: (FaceId, SessionContext)| e.1.token;
    let kept = ctxs.filter(keep);
    assert forall|i: int| 0 <= i < token_faces(ctxs).len() implies lookup(
        ctxs,
        #[trigger] token_faces(ctxs)[i],
    ) == Some(SessionContext { token: true }) by {
        assert(kept.contains(kept[i]));
        ctxs.lemma_filter_contains_rev(keep, kept[i]);
        ctxs.lemma_filter_pred(keep, i);
        let j = choose|j: int| 0 <= j < ctxs.len() && ctxs[j] == kept[i];
        lemma_lookup_at(ctxs, j);
    }
}

/// Whether the remote end of `face` declared a token on `res` under some number.
fn holds_remote_token(tables: &Tables, face: FaceId, res: ResourceId) -> (r: bool)
    requires
        tables@.has_face(face),
    ensures
        r == tables@.faces[face as int].holds_remote_token(res),
{
    let ghost s = tables@.faces[face as int].remote_tokens;
    let n = tables.faces[face].remote_tokens.entries.len();
    for i in 0..n
        invariant
            tables@.has_face(face),
            n == s.len(),
            s == tables@.faces[face as int].remote_tokens,
            forall|j: int| 0 <= j < i ==> (#[trigger] s[j]).1 != res,
    {
        if tables.faces[face].remote_tokens.entries[i].1 == res {
            assert(s[i as int].1 == res);
            return true;
        }
    }
    false
}

/// Gives up the token on `res` that `face` had declared.
pub fn undeclare_simple_token(
    tables: &mut Tables,
    face: FaceId,
    res: ResourceId,
    send_declare: &mut Vec<RoutedDeclare>,
)
    requires
        old(tables)@.wf(),
        old(tables)@.has_face(face),
        old(tables)@.has_resource(res),
        can_undeclare(old(tables)@, face, res),
    ensures
        final(tables)@ == undeclared(old(tables)@, face, res).tables,
        final(send_declare)@ == old(send_declare)@ + undeclared(old(tables)@, face, res).sent,
        final(tables)@.wf(),
{
    let ghost t = tables@;
    let ghost sent = send_declare@;
    proof {
        assert(sent + Seq::<RoutedDeclare>::empty() =~= sent);
    }
    if !holds_remote_token(tables, face, res) {
        if tables.resources[res].session_ctxs.contains_key(face) {
            tables.set_token(res, face, false);
        }
        let ghost u = tables@;
        proof {
            assert(u == unmarked(t, res, face));
            assert(t.resource_wf(t.resources[res as int]));
            assert(u.resource_wf(u.resources[res as int]));
            lemma_token_faces(u.resources[res as int].session_ctxs);
        }
        let left = simple_tokens(&tables.resources[res]);
        if left.len() == 0 {
            propagate_forget_simple_token(tables, res, face, send_declare);
        }
        if left.len() == 1 {
            let last = left[0];
            proof {
                let ctxs = u.resources[res as int].session_ctxs;
                assert(lookup(ctxs, left@[0]) == Some(SessionContext { token: true }));
                assert(u.declares(res, last));
                lemma_key_pos(ctxs, last);
                assert(u.has_face(last));
            }
            if tables.faces[last].whatami != WhatAmI::Client {
                forget_simple_token_on(tables, last, res, last, send_declare);
            }
        }
    }
}

/// What giving up a token that was declared under `id` is about: the token known under that
/// number, or else the one that came along.
pub open spec fn forgotten_resource(
    t: TablesView,
    face: FaceId,
    id: TokenId,
    res: Option<ResourceId>,
) -> Option<ResourceId> {
    match lookup(t.faces[face as int].remote_tokens, id) {
        Some(r) => Some(r),
        None => res,
    }
}

/// The remote end of `face` gives up the token that it declared under `id`.
pub open spec fn forgotten(
    t: TablesView,
    face: FaceId,
    id: TokenId,
    res: Option<ResourceId>,
) -> Step {
    match forgotten_resource(t, face, id, res) {
        Some(r) => undeclared(
            t.with_face(face, t.faces[face as int].without_remote_token(id)),
            face,
            r,
        ),
        None => idle(t),
    }
}

/// Matching was computed for the tokens of this node that have to be looked through then.
pub open spec fn can_forget(
    t: TablesView,
    face: FaceId,
    id: TokenId,
    res: Option<ResourceId>,
) -> bool {
    forgotten_resource(t, face, id, res) matches Some(r) ==> can_undeclare(
        t.with_face(face, t.faces[face as int].without_remote_token(id)),
        face,
        r,
    )
}

/// The faces other than `face` that declared a token are known.
pub proof fn lemma_unmarked_token_faces(t: TablesView, res: ResourceId, face: FaceId)
    requires
        t.wf(),
        t.has_resource(res),
        t.has_face(face),
    ensures
        ({
            let left = token_faces(unmarked(t, res, face).resources[res as int].session_ctxs);
            forall|i: int| 0 <= i < left.len() ==> t.has_face(#[trigger] left[i])
        }),
{
    let u = unmarked(t, res, face);
    let ctxs = u.resources[res as int].session_ctxs;
    lemma_with_ctx_wf(t, res, face, SessionContext { token: false });
    assert(u.resource_wf(u.resources[res as int]));
    lemma_token_faces(ctxs);
    let left = token_faces(ctxs);
    assert forall|i: int| 0 <= i < left.len() implies t.has_face(#[trigger] left[i]) by {
        lemma_key_pos(ctxs, left[i]);
    }
}

/// Whether matching was computed for every token of this node on `face`, the one on `res`
/// excepted.
fn matched_but(tables: &Tables, face: FaceId, res: ResourceId) -> (r: bool)
    requires
        tables@.wf(),
        tables@.has_face(face),
    ensures
        r == tables@.local_tokens_matched_but(face, res),
{
    let ghost t = tables@;
    let ghost s = t.faces[face as int].local_tokens;
    let n = tables.faces[face].local_tokens.entries.len();
    proof {
        assert(t.face_wf(t.faces[face as int]));
    }
    for i in 0..n
        invariant
            t == tables@,
            t.has_face(face),
            t.face_wf(t.faces[face as int]),
            s == t.faces[face as int].local_tokens,
            n == s.len(),
            forall|j: int| 0 <= j < i ==> (#[trigger] s[j]).0 == res || t.has_context(s[j].0),
    {
        let token = tables.faces[face].local_tokens.entries[i].0;
        proof {
            assert(s[i as int].0 == token);
        }
        if token != res && tables.resources[token].context.is_none() {
            return false;
        }
    }
    true
}

/// Whether the remote end of `face` declared a token on `res` under another number than `id`.
fn holds_under_another(tables: &Tables, face: FaceId, id: TokenId, res: ResourceId) -> (r: bool)
    requires
        tables@.wf(),
        tables@.has_face(face),
    ensures
        r == tables@.faces[face as int].without_remote_token(id).holds_remote_token(res),
{
    let ghost t = tables@;
    let ghost s = t.faces[face as int].remote_tokens;
    let ghost rest = removed(s, id);
    let n = tables.faces[face].remote_tokens.entries.len();
    proof {
        assert(t.face_wf(t.faces[face as int]));
        lemma_removed(s, id);
        lemma_removed_subset(s, id);
    }
    for i in 0..n
        invariant
            t == tables@,
            t.has_face(face),
            s == t.faces[face as int].remote_tokens,
            rest == removed(s, id),
            n == s.len(),
            forall|j: int| 0 <= j < i ==> !((#[trigger] s[j]).0 != id && s[j].1 == res),
    {
        let (k, r) = tables.faces[face].remote_tokens.entries[i];
        proof {
            assert(s[i as int] == (k, r));
        }
        if k != id && r == res {
            proof {
                if has_key(s, id) {
                    lemma_key_pos(s, id);
                }
                let j = if has_key(s, id) && key_pos(s, id) < i {
                    i - 1
                } else {
                    i as int
                };
                assert(rest[j] == s[i as int]);
                let f = t.faces[face as int].without_remote_token(id);
                assert(f.remote_tokens[j].1 == res);
            }
            return true;
        }
    }
    proof {
        assert forall|j: int| 0 <= j < rest.len() implies (#[trigger] rest[j]).1 != res by {
            assert(s.contains(rest[j]));
            assert(has_key(rest, rest[j].0));
        }
    }
    false
}

/// The faces other than `face` that declared a token on `res`.
fn other_simple_tokens(tables: &Tables, res: ResourceId, face: FaceId) -> (faces: Vec<FaceId>)
    requires
        tables@.wf(),
        tables@.has_resource(res),
    ensures
        faces@ == token_faces(unmarked(tables@, res, face).resources[res as int].session_ctxs),
{
    let ghost t = tables@;
    let ghost s = t.resources[res as int].session_ctxs;
    let ghost rest = unmarked(t, res, face).resources[res as int].session_ctxs;
    let ghost keep = |e: (FaceId, SessionContext)| e.1.token;
    let ghost name = |e: (FaceId, SessionContext)| e.0;
    let mut faces: Vec<FaceId> = Vec::new();
    let n = tables.resources[res].session_ctxs.entries.len();
    proof {
        assert(t.resource_wf(t.resources[res as int]));
        if has_key(s, face) {
            lemma_key_pos(s, face);
        }
        assert forall|i: int| 0 <= i < s.len() implies #[trigger] rest[i] == if s[i].0 == face {
            (face, SessionContext { token: false })
        } else {
            s[i]
        } by {}
        lemma_take_ends(rest, keep);
    }
    for i in 0..n
        invariant
            t == tables@,
            t.has_resource(res),
            s == t.resources[res as int].session_ctxs,
            n == s.len(),
            rest.len() == s.len(),
            forall|j: int| 0 <= j < s.len() ==> #[trigger] rest[j] == if s[j].0 == face {
                (face, SessionContext { token: false })
            } else {
                s[j]
            },
            keep == (|e: (FaceId, SessionContext)| e.1.token),
            name == (|e: (FaceId, SessionContext)| e.0),
            faces@ == rest.take(i as int).filter(keep).map_values(name),
    {
        let (f, ctx) = tables.resources[res].session_ctxs.entries[i];
        proof {
            assert(s[i as int] == (f, ctx));
            lemma_filter_step(rest, keep, i as int);
        }
        if ctx.token && f != face {
            faces.push(f);
        }
    }
    faces
}

/// Whether the token that the remote end of `face` declared under `id`, or else the one on
/// `res`, can be given up: matching was computed for all that has to be looked through then.
pub fn can_forget_token(
    tables: &Tables,
    face: FaceId,
    id: TokenId,
    res: Option<ResourceId>,
) -> (r: bool)
    requires
        tables@.wf(),
        tables@.has_face(face),
        res matches Some(r) ==> tables@.has_resource(r),
    ensures
        r == can_forget(tables@, face, id, res),
{
    let ghost t = tables@;
    let ghost a = t.faces[face as int];
    let gone = match tables.faces[face].remote_tokens.get(id) {
        Some(known) => known,
        None => match res {
            Some(known) => known,
            None => {
                return true;
            },
        },
    };
    let ghost u = t.with_face(face, a.without_remote_token(id));
    let ghost v = unmarked(u, gone, face);
    proof {
        assert(t.face_wf(a));
        if has_key(a.remote_tokens, id) {
            lemma_key_pos(a.remote_tokens, id);
            assert(t.has_resource(a.remote_tokens[key_pos(a.remote_tokens, id)].1));
        }
        assert(t.resource_wf(t.resources[gone as int]));
        lemma_unmarked_token_faces(t, gone, face);
        assert(v.resources == unmarked(t, gone, face).resources);
        assert forall|r: ResourceId| t.has_resource(r) implies #[trigger] v.has_context(r)
            == t.has_context(r) by {}
        assert forall|f: FaceId| t.has_face(f) implies #[trigger] v.local_tokens_matched_but(
            f,
            gone,
        ) == t.local_tokens_matched_but(f, gone) by {
            assert(t.face_wf(t.faces[f as int]));
            let tokens = t.faces[f as int].local_tokens;
            assert(v.faces[f as int].local_tokens == tokens);
            assert forall|i: int| 0 <= i < tokens.len() implies v.has_context(
                (#[trigger] tokens[i]).0,
            ) == t.has_context(tokens[i].0) by {}
        }
    }
    if holds_under_another(tables, face, id, gone) {
        return true;
    }
    let left = other_simple_tokens(tables, gone, face);
    if left.len() == 0 {
        for f in 0..tables.faces.len()
            invariant
                t == tables@,
                t.wf(),
                v.faces.len() == t.faces.len(),
                forall|i: int|
                    0 <= i < t.faces.len() ==> (#[trigger] v.faces[i]).listed == t.faces[i].listed,
                forall|g: FaceId|
                    t.has_face(g) ==> #[trigger] v.local_tokens_matched_but(g, gone)
                        == t.local_tokens_matched_but(g, gone),
                forall|g: FaceId|
                    g < f && v.faces[g as int].listed ==> #[trigger] v.local_tokens_matched_but(
                        g,
                        gone,
                    ),
                !can_propagate_forget(v, gone) ==> !can_forget(t, face, id, res),
        {
            if tables.faces[f].listed && !matched_but(tables, f, gone) {
                proof {
                    assert(v.has_face(f) && v.faces[f as int].listed);
                    assert(!v.local_tokens_matched_but(f, gone));
                }
                return false;
            }
        }
        true
    } else if left.len() == 1 {
        let last = left[0];
        proof {
            assert(left@[0] == last);
            assert(t.has_face(last));
        }
        tables.faces[last].whatami == WhatAmI::Client || matched_but(tables, last, gone)
    } else {
        true
    }
}

/// Handles the end of the token that the remote end of `face` had declared under `id`; `res`
/// is the resource that came along with the news. Returns the resource that lost the token.
pub fn forget_simple_token(
    tables: &mut Tables,
    face: FaceId,
    id: TokenId,
    res: Option<ResourceId>,
    send_declare: &mut Vec<RoutedDeclare>,
) -> (r: Option<ResourceId>)
    requires
        old(tables)@.wf(),
        old(tables)@.has_face(face),
        res matches Some(r) ==> old(tables)@.has_resource(r),
        can_forget(old(tables)@, face, id, res),
    ensures
        r == forgotten_resource(old(tables)@, face, id, res),
        final(tables)@ == forgotten(old(tables)@, face, id, res).tables,
        final(send_declare)@ == old(send_declare)@ + forgotten(old(tables)@, face, id, res).sent,
        final(tables)@.wf(),
{
    let ghost t = tables@;
    let ghost sent = send_declare@;
    let known = tables.remove_remote_token(face, id);
    let ghost u = tables@;
    proof {
        let tokens = t.faces[face as int].remote_tokens;
        assert(t.face_wf(t.faces[face as int]));
        if has_key(tokens, id) {
            lemma_key_pos(tokens, id);
            assert(t.has_resource(tokens[key_pos(tokens, id)].1));
        } else {
            assert(t.faces.update(face as int, t.faces[face as int]) =~= t.faces);
            assert(u == t);
        }
        assert(sent + Seq::<RoutedDeclare>::empty() =~= sent);
    }
    match known {
        Some(res) => {
            undeclare_simple_token(tables, face, res, send_declare);
            Some(res)
        },
        None => match res {
            Some(res) => {
                undeclare_simple_token(tables, face, res, send_declare);
                Some(res)
            },
            None => None,
        },
    }
}

/// The tokens that the remote ends of the first `n` listed faces declared, face by face;
/// those of routers are left out on demand.
pub open spec fn known_tokens_upto(t: TablesView, routers: bool, n: int) -> Seq<
    (FaceId, ResourceId),
>
    decreases n,
{
    if n <= 0 {
        Seq::empty()
    } else {
        let before = known_tokens_upto(t, routers, n - 1);
        let f = t.faces[n - 1];
        if f.listed && (routers || f.whatami != WhatAmI::Router) {
            before + f.remote_tokens.map_values(
                |e: (TokenId, ResourceId)| ((n - 1) as FaceId, e.1),
            )
        } else {
            before
        }
    }
}

/// The tokens that the remote ends of the listed faces declared.
pub open spec fn known_tokens(t: TablesView, routers: bool) -> Seq<(FaceId, ResourceId)> {
    known_tokens_upto(t, routers, t.faces.len() as int)
}

/// Tokens are of known faces and on known resources.
pub open spec fn tokens_known(t: TablesView, tokens: Seq<(FaceId, ResourceId)>) -> bool {
    forall|i: int|
        0 <= i < tokens.len() ==> t.has_face((#[trigger] tokens[i]).0) && t.has_resource(
            tokens[i].1,
        )
}

/// The tokens that the remote ends of the listed faces declared.
fn collect_tokens(tables: &Tables, routers: bool) -> (tokens: Vec<(FaceId, ResourceId)>)
    requires
        tables@.wf(),
    ensures
        tokens@ == known_tokens(tables@, routers),
        tokens_known(tables@, tokens@),
{
    let ghost t = tables@;
    let mut tokens: Vec<(FaceId, ResourceId)> = Vec::new();
    for face in 0..tables.faces.len()
        invariant
            t == tables@,
            t.wf(),
            tokens@ == known_tokens_upto(t, routers, face as int),
            tokens_known(t, tokens@),
    {
        if tables.faces[face].listed && (routers || tables.faces[face].whatami
            != WhatAmI::Router) {
            let ghost before = tokens@;
            let ghost s = t.faces[face as int].remote_tokens;
            let ghost token = |e: (TokenId, ResourceId)| (face, e.1);
            let n = tables.faces[face].remote_tokens.entries.len();
            proof {
                assert(t.face_wf(t.faces[face as int]));
                assert(tokens@ =~= before + s.take(0).map_values(token));
            }
            for i in 0..n
                invariant
                    t == tables@,
                    t.has_face(face),
                    t.face_wf(t.faces[face as int]),
                    s == t.faces[face as int].remote_tokens,
                    token == (|e: (TokenId, ResourceId)| (face, e.1)),
                    n == s.len(),
                    tokens@ == before + s.take(i as int).map_values(token),
                    tokens_known(t, tokens@),
            {
                let res = tables.faces[face].remote_tokens.entries[i].1;
                proof {
                    assert(t.has_resource(s[i as int].1));
                }
                tokens.push((face, res));
                proof {
                    assert(tokens@ =~= before + s.take(i + 1).map_values(token));
                }
            }
            proof {
                assert(s.take(n as int) =~= s);
                let f = t.faces[face as int];
                assert(f.remote_tokens.map_values(
                    |e: (TokenId, ResourceId)| (((face + 1) - 1) as FaceId, e.1),
                ) =~= s.map_values(token));
            }
        }
    }
    tokens
}

/// The tokens are offered, one after the other, to `dst` as if it had asked for all of them.
pub open spec fn offer_all(
    t: TablesView,
    dst: FaceId,
    tokens: Seq<(FaceId, ResourceId)>,
) -> FaceStep
    decreases tokens.len(),
{
    if tokens.len() == 0 {
        FaceStep { face: t.faces[dst as int], sent: Seq::empty() }
    } else {
        let before = offer_all(t, dst, tokens.drop_last());
        let (src, res) = tokens.last();
        let now = offer(
            t.with_face(dst, before.face),
            dst,
            res,
            src,
            None,
            Some(INITIAL_INTEREST_ID),
        );
        FaceStep { face: now.face, sent: before.sent + now.sent }
    }
}

/// What a face that has just connected is told about: a client waits until it asks, any other
/// face is offered every token that is known.
pub open spec fn new_face(t: TablesView, face: FaceId) -> Step {
    if t.is_client(face) {
        idle(t)
    } else {
        let step = offer_all(t, face, known_tokens(t, true));
        Step { tables: t.with_face(face, step.face), sent: step.sent }
    }
}

/// Tells `face`, which has just connected, about the tokens it is owed.
pub fn token_new_face(tables: &mut Tables, face: FaceId, send_declare: &mut Vec<RoutedDeclare>)
    requires
        old(tables)@.wf(),
        old(tables)@.has_face(face),
    ensures
        final(tables)@ == new_face(old(tables)@, face).tables,
        final(send_declare)@ == old(send_declare)@ + new_face(old(tables)@, face).sent,
        final(tables)@.wf(),
{
    let ghost t = tables@;
    let ghost sent = send_declare@;
    proof {
        assert(sent + Seq::<RoutedDeclare>::empty() =~= sent);
        assert(t.faces.update(face as int, t.faces[face as int]) =~= t.faces);
    }
    if tables.faces[face].whatami != WhatAmI::Client {
        let tokens = collect_tokens(tables, true);
        proof {
            assert(tokens@.take(0) =~= Seq::<(FaceId, ResourceId)>::empty());
        }
        for k in 0..tokens.len()
            invariant
                t.has_face(face),
                tokens_known(t, tokens@),
                tables@ == t.with_face(face, offer_all(t, face, tokens@.take(k as int)).face),
                send_declare@ == sent + offer_all(t, face, tokens@.take(k as int)).sent,
                tables@.wf(),
        {
            let (src_face, token) = tokens[k];
            proof {
                assert(tokens@[k as int] == (src_face, token));
                assert(tokens@.take(k + 1).drop_last() =~= tokens@.take(k as int));
            }
            propagate_simple_token_to(
                tables,
                face,
                token,
                src_face,
                None,
                Some(INITIAL_INTEREST_ID),
                send_declare,
            );
            proof {
                let next = offer_all(t, face, tokens@.take(k + 1));
                assert(tables@.faces =~= t.faces.update(face as int, next.face));
                assert(send_declare@ =~= sent + next.sent);
            }
        }
        proof {
            assert(tokens@.take(tokens.len() as int) =~= tokens@);
        }
    }
}

/// Some token that a listed face declared matches `res`.
pub open spec fn is_present(t: TablesView, res: ResourceId) -> bool {
    exists|f: FaceId, m: ResourceId| #[trigger]
        known_tokens(t, true).contains((f, m)) && t.matches(m, res)
}

/// The resources on which an interest in the present tokens is answered. An aggregate is
/// answered on the resource of the interest itself; otherwise each token is named, except those
/// that routers declared.
pub open spec fn interest_answers(
    t: TablesView,
    res: Option<ResourceId>,
    aggregate: bool,
) -> Seq<ResourceId> {
    match res {
        Some(r) if aggregate => if is_present(t, r) {
            seq![r]
        } else {
            Seq::empty()
        },
        Some(r) => known_tokens(t, false).filter(
            |e: (FaceId, ResourceId)| t.matches(e.1, r),
        ).map_values(|e: (FaceId, ResourceId)| e.1),
        None => known_tokens(t, false).map_values(|e: (FaceId, ResourceId)| e.1),
    }
}

/// Tokens on `targets` are reported to `face` in answer to its interest `interest_id`.
pub open spec fn report(
    face: FaceId,
    f: FaceView,
    targets: Seq<ResourceId>,
    mode: InterestMode,
    interest_id: InterestId,
) -> FaceStep
    decreases targets.len(),
{
    if targets.len() == 0 {
        FaceStep { face: f, sent: Seq::empty() }
    } else {
        let before = report(face, f, targets.drop_last(), mode, interest_id);
        let res = targets.last();
        FaceStep {
            face: with_id_for(before.face, res, mode),
            sent: before.sent.push(
                RoutedDeclare::declares_token(
                    face,
                    id_for(before.face, res, mode),
                    res,
                    Some(interest_id),
                ),
            ),
        }
    }
}

/// `face` sends the interest `id`, which is about `res` or about everything.
pub open spec fn interest_declared(
    t: TablesView,
    face: FaceId,
    id: InterestId,
    res: Option<ResourceId>,
    mode: InterestMode,
    aggregate: bool,
) -> Step {
    if mode.wants_current() {
        let step = report(
            face,
            t.faces[face as int],
            interest_answers(t, res, aggregate),
            mode,
            id,
        );
        Step { tables: t.with_face(face, step.face), sent: step.sent }
    } else {
        idle(t)
    }
}

/// The resources on which the interest of a face in the present tokens is answered.
fn answers(tables: &Tables, res: Option<ResourceId>, aggregate: bool) -> (targets: Vec<ResourceId>)
    requires
        tables@.wf(),
        res matches Some(r) ==> tables@.has_resource(r),
    ensures
        targets@ == interest_answers(tables@, res, aggregate),
        forall|i: int|
            0 <= i < targets.len() ==> tables@.has_resource(#[trigger] targets@[i]),
{
    let ghost t = tables@;
    let mut targets: Vec<ResourceId> = Vec::new();
    match res {
        Some(r) if aggregate => {
            let tokens = collect_tokens(tables, true);
            let mut present: bool = false;
            for k in 0..tokens.len()
                invariant
                    t == tables@,
                    tokens_known(t, tokens@),
                    present == exists|j: int|
                        0 <= j < k && t.matches((#[trigger] tokens@[j]).1, r),
            {
                let token = tokens[k].1;
                proof {
                    assert(t.has_resource(tokens@[k as int].1));
                }
                if tables.resources[token].context.is_some() && tables.resources[token].matches(
                    r,
                ) {
                    proof {
                        assert(t.matches(tokens@[k as int].1, r));
                    }
                    present = true;
                }
            }
            proof {
                if present {
                    let j = choose|j: int|
                        0 <= j < tokens.len() && t.matches((#[trigger] tokens@[j]).1, r);
                    let (f, m) = tokens@[j];
                    assert(known_tokens(t, true).contains((f, m)));
                } else if is_present(t, r) {
                    let (f, m) = choose|f: FaceId, m: ResourceId| #[trigger]
                        known_tokens(t, true).contains((f, m)) && t.matches(m, r);
                    let j = choose|j: int| 0 <= j < tokens.len() && tokens@[j] == (f, m);
                    assert(t.matches(tokens@[j].1, r));
                }
            }
            if present {
                targets.push(r);
            }
        },
        Some(r) => {
            let tokens = collect_tokens(tables, false);
            let ghost keep = |e: (FaceId, ResourceId)| t.matches(e.1, r);
            let ghost name = |e: (FaceId, ResourceId)| e.1;
            proof {
                lemma_take_ends(tokens@, keep);
            }
            for k in 0..tokens.len()
                invariant
                    t == tables@,
                    tokens_known(t, tokens@),
                    keep == (|e: (FaceId, ResourceId)| t.matches(e.1, r)),
                    name == (|e: (FaceId, ResourceId)| e.1),
                    targets@ == tokens@.take(k as int).filter(keep).map_values(name),
                    forall|i: int|
                        0 <= i < targets.len() ==> t.has_resource(#[trigger] targets@[i]),
            {
                let token = tokens[k].1;
                proof {
                    assert(t.has_resource(tokens@[k as int].1));
                    lemma_filter_step(tokens@, keep, k as int);
                }
                if tables.resources[token].context.is_some() && tables.resources[token].matches(
                    r,
                ) {
                    targets.push(token);
                }
            }
        },
        None => {
            let tokens = collect_tokens(tables, false);
            let ghost name = |e: (FaceId, ResourceId)| e.1;
            for k in 0..tokens.len()
                invariant
                    tokens_known(t, tokens@),
                    name == (|e: (FaceId, ResourceId)| e.1),
                    targets@ == tokens@.take(k as int).map_values(name),
                    forall|i: int|
                        0 <= i < targets.len() ==> t.has_resource(#[trigger] targets@[i]),
            {
                let token = tokens[k].1;
                proof {
                    assert(t.has_resource(tokens@[k as int].1));
                }
                targets.push(token);
                proof {
                    assert(targets@ =~= tokens@.take(k + 1).map_values(name));
                }
            }
            proof {
                assert(tokens@.take(tokens.len() as int) =~= tokens@);
            }
        },
    }
    targets
}

/// Answers the interest `id` of `face` with the tokens that are present.
pub fn declare_token_interest(
    tables: &mut Tables,
    face: FaceId,
    id: InterestId,
    res: Option<ResourceId>,
    mode: InterestMode,
    aggregate: bool,
    send_declare: &mut Vec<RoutedDeclare>,
)
    requires
        old(tables)@.wf(),
        old(tables)@.has_face(face),
        res matches Some(r) ==> old(tables)@.has_resource(r),
    ensures
        ({
            let step = interest_declared(old(tables)@, face, id, res, mode, aggregate);
            &&& final(tables)@ == step.tables
            &&& final(send_declare)@ == old(send_declare)@ + step.sent
        }),
        final(tables)@.wf(),
{
    let ghost t = tables@;
    let ghost f = t.faces[face as int];
    let ghost sent = send_declare@;
    proof {
        assert(sent + Seq::<RoutedDeclare>::empty() =~= sent);
        assert(t.faces.update(face as int, f) =~= t.faces);
    }
    if mode.current() {
        let targets = answers(tables, res, aggregate);
        proof {
            assert(targets@.take(0) =~= Seq::<ResourceId>::empty());
        }
        for k in 0..targets.len()
            invariant
                t.has_face(face),
                f == t.faces[face as int],
                forall|i: int| 0 <= i < targets.len() ==> t.has_resource(#[trigger] targets@[i]),
                tables@ == t.with_face(
                    face,
                    report(face, f, targets@.take(k as int), mode, id).face,
                ),
                send_declare@ == sent + report(face, f, targets@.take(k as int), mode, id).sent,
                tables@.wf(),
        {
            let token = targets[k];
            proof {
                assert(t.has_resource(targets@[k as int]));
                assert(targets@.take(k + 1).drop_last() =~= targets@.take(k as int));
            }
            let token_id = make_token_id(tables, token, face, mode);
            send_declare.push(RoutedDeclare::declare_token(face, token_id, token, Some(id)));
            proof {
                let next = report(face, f, targets@.take(k + 1), mode, id);
                assert(tables@.faces =~= t.faces.update(face as int, next.face));
                assert(send_declare@ =~= sent + next.sent);
            }
        }
        proof {
            assert(targets@.take(targets.len() as int) =~= targets@);
        }
    }
}

/// The token rules of a peer in a peer-to-peer network.
#[derive(Clone, Copy, Debug)]
pub struct HatCode;

impl HatCode {
    /// The remote end of `face` declares a token on `res` under `id`, in answer to
    /// `interest_id` if there is one.
    pub fn declare_token(
        &self,
        tables: &mut Tables,
        face: FaceId,
        id: TokenId,
        res: ResourceId,
        _node_id: NodeId,
        interest_id: Option<InterestId>,
        send_declare: &mut Vec<RoutedDeclare>,
    ) -> (outcome: DeclareOutcome)
        requires
            old(tables)@.wf(),
            old(tables)@.has_face(face),
            old(tables)@.has_resource(res),
        ensures
            outcome == declare_outcome(old(tables)@, face, interest_id),
            final(tables)@ == declared(old(tables)@, face, id, res, interest_id).tables,
            final(send_declare)@ == old(send_declare)@ + declared(
                old(tables)@,
                face,
                id,
                res,
                interest_id,
            ).sent,
            final(tables)@.wf(),
    {
        declare_simple_token(tables, face, id, res, interest_id, send_declare)
    }

    /// The remote end of `face` gives up the token that it declared under `id`, or else the one
    /// on `res`. Returns the resource that lost the token.
    pub fn undeclare_token(
        &self,
        tables: &mut Tables,
        face: FaceId,
        id: TokenId,
        res: Option<ResourceId>,
        _node_id: NodeId,
        send_declare: &mut Vec<RoutedDeclare>,
    ) -> (r: Option<ResourceId>)
        requires
            old(tables)@.wf(),
            old(tables)@.has_face(face),
            res matches Some(r) ==> old(tables)@.has_resource(r),
            can_forget(old(tables)@, face, id, res),
        ensures
            r == forgotten_resource(old(tables)@, face, id, res),
            final(tables)@ == forgotten(old(tables)@, face, id, res).tables,
            final(send_declare)@ == old(send_declare)@ + forgotten(
                old(tables)@,
                face,
                id,
                res,
            ).sent,
            final(tables)@.wf(),
    {
        forget_simple_token(tables, face, id, res, send_declare)
    }
}

} // verus!
