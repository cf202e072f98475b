//! What each token rule brings about, told by who is there, what is declared and what is sent.

use vstd::prelude::*;

use crate::declare::{
    Declare, DeclareBody, DeclareToken, QoSType, RoutedDeclare, UndeclareToken, WireExpr,
};
use crate::dict::{
    has_key, law_lookup, law_put, law_removed, lemma_put, lemma_removed, lookup, put, removed,
    unique_keys,
};
use crate::seqs::lemma_filter_all;
use crate::tables::{
    lemma_with_ctx_wf, lemma_with_face_wf, lemma_without_remote_token_wf, CurrentInterest, FaceId,
    FaceView, InterestId, InterestMode, RemoteInterest, ResourceId, ResourceView, SessionContext,
    TablesView, TokenId, WhatAmI, INITIAL_INTEREST_ID,
};
use crate::token::{
    announce, can_forget, can_propagate_forget, can_undeclare, declare_outcome, declared, forget_on,
    forgotten, forgotten_resource, has_remote_token, id_for, interest_answers, interest_covers,
    interest_declared, interest_target, interest_wants, is_backed, is_new_token, is_present,
    is_watched, known_tokens, known_tokens_upto, lemma_filter_unique, new_face, offer, offer_all,
    offer_targets, propagate, propagate_forget, registered, report, retract, sent_upto,
    should_offer, token_faces, undeclared, unmarked, with_id_for, DeclareOutcome, FaceStep,
};
use crate::token_laws::{
    law_announce_sends_once, law_interest_without_future, law_known_tokens, law_new_face_frame,
    law_new_face_gains_what_it_is_owed, law_new_face_reaches, law_propagate_frame, law_token_faces,
    lemma_announce, lemma_announce_told, lemma_offer_all_frame, lemma_offer_all_owed,
    lemma_registered_wf, lemma_undeclared_frame, only_local_tokens,
};

verus! {

/// `face` is marked on `res` as having declared a token.
pub open spec fn marked(t: TablesView, res: ResourceId, face: FaceId) -> bool {
    t.resources[res as int].session_ctxs.contains((face, SessionContext { token: true }))
}

/// The role of the node behind a face.
pub open spec fn role(t: TablesView, face: FaceId) -> WhatAmI {
    t.faces[face as int].whatami
}

/// The face leads back to the node whose tables these are.
pub open spec fn leads_back(t: TablesView, face: FaceId) -> bool {
    t.faces[face as int].zid == t.zid
}

/// The face has been told of a token on `res`.
pub open spec fn told(f: FaceView, res: ResourceId) -> bool {
    exists|id: TokenId| #[trigger] f.local_tokens.contains((res, id))
}

/// `other` is among the computed matches of `res`.
pub open spec fn meets(t: TablesView, res: ResourceId, other: ResourceId) -> bool {
    t.resources[res as int].context matches Some(m) && m.contains(other)
}

/// A declaration of the token on `res` under `id`.
pub open spec fn declaration(
    face: FaceId,
    id: TokenId,
    res: ResourceId,
    interest_id: Option<InterestId>,
) -> RoutedDeclare {
    RoutedDeclare {
        face,
        res,
        msg: Declare {
            interest_id,
            ext_qos: QoSType::Declare,
            ext_nodeid: 0,
            body: DeclareBody::DeclareToken(
                DeclareToken { id, wire_expr: WireExpr::Declared(res) },
            ),
        },
    }
}

/// An undeclaration of the token on `res` under `id`.
pub open spec fn undeclaration(
    face: FaceId,
    id: TokenId,
    res: ResourceId,
    ext_wire_expr: WireExpr,
) -> RoutedDeclare {
    RoutedDeclare {
        face,
        res,
        msg: Declare {
            interest_id: None,
            ext_qos: QoSType::Declare,
            ext_nodeid: 0,
            body: DeclareBody::UndeclareToken(UndeclareToken { id, ext_wire_expr }),
        },
    }
}

/// The interest asks for tokens, is about `res` or about everything, and is of use for a token
/// that came in answer to `src_interest_id`, if it came in answer to anything.
pub open spec fn asks_for(
    t: TablesView,
    i: RemoteInterest,
    res: ResourceId,
    src_interest_id: Option<InterestId>,
) -> bool {
    &&& i.options.tokens
    &&& i.res is None || meets(t, i.res->0, res)
    &&& src_interest_id is None || i.mode == InterestMode::Current || i.mode
        == InterestMode::CurrentFuture
}

/// The resource on which the owner of the interest is told of a token on `res`: its own where
/// it asks for an aggregate on one.
pub open spec fn answered_on(i: RemoteInterest, res: ResourceId) -> ResourceId {
    if i.options.aggregate && i.res is Some {
        i.res->0
    } else {
        res
    }
}

/// Where no key is bound twice, being bound is being in the list.
pub proof fn lemma_told(f: FaceView, res: ResourceId)
    requires
        unique_keys(f.local_tokens),
    ensures
        has_key(f.local_tokens, res) <==> told(f, res),
        forall|id: TokenId|
            #[trigger] f.local_tokens.contains((res, id)) <==> lookup(f.local_tokens, res) == Some(
                id,
            ),
{
    law_lookup(f.local_tokens, res);
    if has_key(f.local_tokens, res) {
        assert(f.local_tokens.contains((res, lookup(f.local_tokens, res)->0)));
    }
}

/// A face declared a token on a resource exactly if it is marked there.
pub proof fn lemma_marked(t: TablesView, res: ResourceId)
    requires
        t.wf(),
        t.has_resource(res),
    ensures
        forall|f: FaceId| #[trigger] t.declares(res, f) <==> marked(t, res, f),
        forall|f: FaceId| #[trigger] marked(t, res, f) ==> t.has_face(f),
{
    let ctxs = t.resources[res as int].session_ctxs;
    assert(t.resource_wf(t.resources[res as int]));
    assert forall|f: FaceId| #[trigger] t.declares(res, f) <==> marked(t, res, f) by {
        law_lookup(ctxs, f);
        if t.declares(res, f) {
            let ctx = lookup(ctxs, f)->0;
            assert(ctx == SessionContext { token: true });
            assert(ctxs.contains((f, ctx)));
        }
    }
    assert forall|f: FaceId| #[trigger] marked(t, res, f) implies t.has_face(f) by {
        let i = choose|i: int|
            0 <= i < ctxs.len() && ctxs[i] == (f, SessionContext { token: true });
        assert(t.has_face(ctxs[i].0));
    }
}

/// A token from `src` is news to `dst` exactly if every face that is marked is the source, or
/// `dst` itself unless that leads back here, or no client where `dst` is none either.
pub proof fn law_new_token(t: TablesView, res: ResourceId, src: FaceId, dst: FaceId)
    requires
        t.wf(),
        t.has_resource(res),
        t.has_face(dst),
    ensures
        is_new_token(t, res, src, dst) <==> forall|f: FaceId| #[trigger]
            marked(t, res, f) ==> f == src || (f == dst && !leads_back(t, dst)) || (role(t, f)
                != WhatAmI::Client && role(t, dst) != WhatAmI::Client),
{
    lemma_marked(t, res);
    if !is_new_token(t, res, src, dst) {
        let f = choose|f: FaceId|
            {
                &&& #[trigger] t.declares(res, f)
                &&& f != src
                &&& f != dst || t.is_local(dst)
                &&& t.is_client(f) || t.is_client(dst)
            };
        assert(marked(t, res, f));
    } else {
        assert forall|f: FaceId| #[trigger] marked(t, res, f) implies f == src || (f == dst
            && !leads_back(t, dst)) || (role(t, f) != WhatAmI::Client && role(t, dst)
            != WhatAmI::Client) by {
            assert(t.declares(res, f));
        }
    }
}

/// What a client is told of is what its interests ask for.
proof fn lemma_client_targets(
    t: TablesView,
    dst: FaceId,
    res: ResourceId,
    src_interest_id: Option<InterestId>,
)
    requires
        t.wf(),
        t.has_face(dst),
        role(t, dst) == WhatAmI::Client,
    ensures
        forall|e: (InterestId, RemoteInterest)|
            #![trigger t.faces[dst as int].remote_interests.contains(e)]
            t.faces[dst as int].remote_interests.contains(e) && asks_for(
                t,
                e.1,
                res,
                src_interest_id,
            ) ==> offer_targets(t, dst, res, src_interest_id).contains(answered_on(e.1, res)),
        forall|r: ResourceId| #[trigger]
            offer_targets(t, dst, res, src_interest_id).contains(r) ==> exists|
                e: (InterestId, RemoteInterest),
            |
                #![trigger t.faces[dst as int].remote_interests.contains(e)]
                t.faces[dst as int].remote_interests.contains(e) && asks_for(
                    t,
                    e.1,
                    res,
                    src_interest_id,
                ) && r == answered_on(e.1, res),
{
    let s = t.faces[dst as int].remote_interests;
    let wanted = |e: (InterestId, RemoteInterest)| interest_wants(t, e.1, res, src_interest_id);
    let target = |e: (InterestId, RemoteInterest)| interest_target(e.1, res);
    let kept = s.filter(wanted);
    let targets = offer_targets(t, dst, res, src_interest_id);
    assert(t.face_wf(t.faces[dst as int]));
    assert(targets == kept.map_values(target));
    assert forall|e: (InterestId, RemoteInterest)|
        #![trigger s.contains(e)]
        s.contains(e) && asks_for(t, e.1, res, src_interest_id) implies targets.contains(
        answered_on(e.1, res),
    ) by {
        assert(wanted(e));
        let j = choose|j: int| 0 <= j < s.len() && s[j] == e;
        s.lemma_filter_contains(wanted, j);
        let i = choose|i: int| 0 <= i < kept.len() && kept[i] == e;
        assert(targets[i] == answered_on(e.1, res));
    }
    assert forall|r: ResourceId| #[trigger] targets.contains(r) implies exists|
        e: (InterestId, RemoteInterest),
    |
        #![trigger s.contains(e)]
        s.contains(e) && asks_for(t, e.1, res, src_interest_id) && r == answered_on(e.1, res) by {
        let i = choose|i: int| 0 <= i < targets.len() && targets[i] == r;
        let e = kept[i];
        assert(kept.contains(e));
        s.lemma_filter_contains_rev(wanted, e);
        s.lemma_filter_pred(wanted, i);
        assert(s.contains(e));
    }
}

/// A client that has an interest in a token, does not have the token and hears of it from no
/// third face is told of it, whatever the role of the face that it comes from: afterwards it has
/// a token on the resource that the interest is answered on, and where it had none before it was
/// sent its declaration.
pub proof fn law_offer_reaches_clients(
    t: TablesView,
    dst: FaceId,
    res: ResourceId,
    src: FaceId,
    src_interest_id: Option<InterestId>,
    dst_interest_id: Option<InterestId>,
    asked: (InterestId, RemoteInterest),
)
    requires
        t.wf(),
        t.has_face(dst),
        t.has_face(src),
        t.has_resource(res),
        role(t, dst) == WhatAmI::Client,
        src != dst || leads_back(t, dst),
        !told(t.faces[dst as int], res),
        forall|f: FaceId| #[trigger]
            marked(t, res, f) ==> f == src || (f == dst && !leads_back(t, dst)),
        t.faces[dst as int].remote_interests.contains(asked),
        asks_for(t, asked.1, res, src_interest_id),
    ensures
        ({
            let target = answered_on(asked.1, res);
            let before = t.faces[dst as int];
            let step = offer(t, dst, res, src, src_interest_id, dst_interest_id);
            exists|id: TokenId| #[trigger]
                step.face.local_tokens.contains((target, id)) && if told(before, target) {
                    before.local_tokens.contains((target, id))
                } else {
                    step.sent.contains(declaration(dst, id, target, dst_interest_id))
                }
        }),
{
    let f = t.faces[dst as int];
    let target = answered_on(asked.1, res);
    assert(t.face_wf(f));
    lemma_told(f, res);
    lemma_told(f, target);
    law_new_token(t, res, src, dst);
    assert(should_offer(t, dst, res, src));
    lemma_client_targets(t, dst, res, src_interest_id);
    let targets = offer_targets(t, dst, res, src_interest_id);
    assert(targets.contains(target));
    lemma_announce(dst, f, targets, dst_interest_id);
    let g = offer(t, dst, res, src, src_interest_id, dst_interest_id).face;
    assert(has_key(g.local_tokens, target));
    lemma_told(g, target);
    let id = lookup(g.local_tokens, target)->0;
    assert(g.local_tokens.contains((target, id)));
    if !told(f, target) {
        lemma_announce_told(dst, f, targets, dst_interest_id, target);
    } else {
        assert(lookup(g.local_tokens, target) == lookup(f.local_tokens, target));
    }
}

/// A peer or router that does not have the token of a client and hears of it from no other
/// client is told of it.
pub proof fn law_offer_reaches_peers_and_routers(
    t: TablesView,
    dst: FaceId,
    res: ResourceId,
    src: FaceId,
    src_interest_id: Option<InterestId>,
    dst_interest_id: Option<InterestId>,
)
    requires
        t.wf(),
        t.has_face(dst),
        t.has_face(src),
        t.has_resource(res),
        role(t, dst) != WhatAmI::Client,
        role(t, src) == WhatAmI::Client,
        !told(t.faces[dst as int], res),
        forall|f: FaceId| #[trigger]
            marked(t, res, f) && role(t, f) == WhatAmI::Client ==> f == src,
    ensures
        ({
            let step = offer(t, dst, res, src, src_interest_id, dst_interest_id);
            exists|id: TokenId| #[trigger]
                step.face.local_tokens.contains((res, id)) && step.sent == seq![
                    declaration(dst, id, res, dst_interest_id),
                ]
        }),
{
    let f = t.faces[dst as int];
    assert(t.face_wf(f));
    lemma_told(f, res);
    law_new_token(t, res, src, dst);
    assert(should_offer(t, dst, res, src));
    let step = offer(t, dst, res, src, src_interest_id, dst_interest_id);
    assert(seq![res].drop_last() =~= Seq::<ResourceId>::empty());
    reveal_with_fuel(announce, 2);
    lemma_put(f.local_tokens, res, f.next_id);
    law_put(f.local_tokens, res, f.next_id);
    assert(step.face.local_tokens.contains((res, f.next_id)));
    assert(step.sent =~= seq![declaration(dst, f.next_id, res, dst_interest_id)]);
}

/// A face is told of a token only if it is not the one the token comes from, unless it leads
/// back here; if it or the source is a client; if it does not have the token; and if it does not
/// hear of it from a third face. A client is told only what one of its interests asks for, any
/// other face only of the resource itself. What a face had it keeps, and what it gains it is
/// told of, once and in answer to the given interest. Nothing else about it changes.
pub proof fn law_offer_is_due(
    t: TablesView,
    dst: FaceId,
    res: ResourceId,
    src: FaceId,
    src_interest_id: Option<InterestId>,
    dst_interest_id: Option<InterestId>,
)
    requires
        t.wf(),
        t.has_face(dst),
        t.has_face(src),
        t.has_resource(res),
    ensures
        ({
            let before = t.faces[dst as int];
            let step = offer(t, dst, res, src, src_interest_id, dst_interest_id);
            &&& step.sent.len() > 0 ==> {
                &&& src != dst || leads_back(t, dst)
                &&& role(t, src) == WhatAmI::Client || role(t, dst) == WhatAmI::Client
                &&& !told(before, res)
                &&& forall|f: FaceId| #[trigger]
                    marked(t, res, f) ==> f == src || (f == dst && !leads_back(t, dst)) || (role(
                        t,
                        f,
                    ) != WhatAmI::Client && role(t, dst) != WhatAmI::Client)
            }
            &&& forall|i: int|
                #![trigger step.sent[i]]
                0 <= i < step.sent.len() ==> {
                    let m = step.sent[i];
                    &&& !told(before, m.res)
                    &&& exists|id: TokenId| #[trigger]
                        step.face.local_tokens.contains((m.res, id)) && m == declaration(
                            dst,
                            id,
                            m.res,
                            dst_interest_id,
                        )
                    &&& if role(t, dst) == WhatAmI::Client {
                        exists|e: (InterestId, RemoteInterest)|
                            #![trigger before.remote_interests.contains(e)]
                            before.remote_interests.contains(e) && asks_for(
                                t,
                                e.1,
                                res,
                                src_interest_id,
                            ) && m.res == answered_on(e.1, res)
                    } else {
                        m.res == res
                    }
                }
            &&& forall|i: int, j: int|
                #![trigger step.sent[i], step.sent[j]]
                0 <= i < j < step.sent.len() ==> step.sent[i].res != step.sent[j].res
            &&& forall|r: ResourceId, id: TokenId| #[trigger]
                step.face.local_tokens.contains((r, id)) <==> before.local_tokens.contains(
                    (r, id),
                ) || step.sent.contains(declaration(dst, id, r, dst_interest_id))
            &&& step.face == (FaceView {
                local_tokens: step.face.local_tokens,
                next_id: step.face.next_id,
                ..before
            })
        }),
{
    let f = t.faces[dst as int];
    let step = offer(t, dst, res, src, src_interest_id, dst_interest_id);
    assert(t.face_wf(f));
    lemma_told(f, res);
    law_new_token(t, res, src, dst);
    let targets = offer_targets(t, dst, res, src_interest_id);
    if should_offer(t, dst, res, src) {
        lemma_announce(dst, f, targets, dst_interest_id);
        law_announce_sends_once(dst, f, targets, dst_interest_id);
        lemma_announce_only(dst, f, targets, dst_interest_id);
        if role(t, dst) == WhatAmI::Client {
            lemma_client_targets(t, dst, res, src_interest_id);
        }
        assert forall|i: int|
            #![trigger step.sent[i]]
            0 <= i < step.sent.len() implies {
            let m = step.sent[i];
            &&& !told(f, m.res)
            &&& targets.contains(m.res)
            &&& exists|id: TokenId| #[trigger]
                step.face.local_tokens.contains((m.res, id)) && m == declaration(
                    dst,
                    id,
                    m.res,
                    dst_interest_id,
                )
        } by {
            let m = step.sent[i];
            lemma_told(f, m.res);
            lemma_told(step.face, m.res);
            let id = lookup(step.face.local_tokens, m.res)->0;
            assert(step.face.local_tokens.contains((m.res, id)));
        }
        assert forall|r: ResourceId, id: TokenId| #[trigger]
            step.face.local_tokens.contains((r, id)) <==> f.local_tokens.contains((r, id))
            || step.sent.contains(declaration(dst, id, r, dst_interest_id)) by {
            lemma_told(f, r);
            lemma_told(step.face, r);
            if step.face.local_tokens.contains((r, id)) && !told(f, r) {
                lemma_announce_told(dst, f, targets, dst_interest_id, r);
            }
            if f.local_tokens.contains((r, id)) {
                assert(told(f, r));
            }
            if step.face.local_tokens.contains((r, id)) && told(f, r) {
                assert(lookup(step.face.local_tokens, r) == lookup(f.local_tokens, r));
            }
            if step.sent.contains(declaration(dst, id, r, dst_interest_id)) {
                let i = choose|i: int|
                    0 <= i < step.sent.len() && step.sent[i] == declaration(
                        dst,
                        id,
                        r,
                        dst_interest_id,
                    );
                assert(step.sent[i].res == r);
            }
        }
    } else {
        assert(step.sent.len() == 0);
    }
}

/// Declaring tokens on a face touches nothing but its tokens and numbers, names targets only,
/// and takes the numbers one after the other, starting over behind the last one.
pub proof fn lemma_announce_only(
    face: FaceId,
    f: FaceView,
    targets: Seq<ResourceId>,
    interest_id: Option<InterestId>,
)
    requires
        unique_keys(f.local_tokens),
    ensures
        ({
            let step = announce(face, f, targets, interest_id);
            &&& step.face == (FaceView {
                local_tokens: step.face.local_tokens,
                next_id: step.face.next_id,
                ..f
            })
            &&& forall|i: int|
                #![trigger step.sent[i]]
                0 <= i < step.sent.len() ==> targets.contains(step.sent[i].res) && step.sent[i]
                    == declaration(
                    face,
                    ((f.next_id + i) % 0x1_0000_0000) as u32,
                    step.sent[i].res,
                    interest_id,
                )
            &&& step.face.next_id == (f.next_id + step.sent.len()) % 0x1_0000_0000
        }),
    decreases targets.len(),
{
    if targets.len() > 0 {
        let rest = targets.drop_last();
        lemma_announce_only(face, f, rest, interest_id);
        let b = announce(face, f, rest, interest_id);
        let g = announce(face, f, targets, interest_id);
        assert(targets[targets.len() - 1] == targets.last());
        assert forall|r: ResourceId| rest.contains(r) implies #[trigger] targets.contains(r) by {
            let i = choose|i: int| 0 <= i < rest.len() && rest[i] == r;
            assert(targets[i] == r);
        }
        assert forall|i: int|
            #![trigger g.sent[i]]
            0 <= i < g.sent.len() implies targets.contains(g.sent[i].res) && g.sent[i]
            == declaration(
            face,
            ((f.next_id + i) % 0x1_0000_0000) as u32,
            g.sent[i].res,
            interest_id,
        ) by {
            if i < b.sent.len() {
                assert(g.sent[i] == b.sent[i]);
                assert(rest.contains(b.sent[i].res));
            }
        }
    }
}

/// Numbers are handed out one after the other and start over behind the last one.
pub proof fn law_offer_numbers(
    t: TablesView,
    dst: FaceId,
    res: ResourceId,
    src: FaceId,
    src_interest_id: Option<InterestId>,
    dst_interest_id: Option<InterestId>,
)
    requires
        t.wf(),
        t.has_face(dst),
        t.has_face(src),
        t.has_resource(res),
    ensures
        ({
            let f = t.faces[dst as int];
            let step = offer(t, dst, res, src, src_interest_id, dst_interest_id);
            &&& forall|i: int|
                #![trigger step.sent[i]]
                0 <= i < step.sent.len() ==> step.sent[i] == declaration(
                    dst,
                    ((f.next_id + i) % 0x1_0000_0000) as u32,
                    step.sent[i].res,
                    dst_interest_id,
                )
            &&& step.face.next_id == (f.next_id + step.sent.len()) % 0x1_0000_0000
        }),
{
    let f = t.faces[dst as int];
    assert(t.face_wf(f));
    lemma_announce_only(
        dst,
        f,
        offer_targets(t, dst, res, src_interest_id),
        dst_interest_id,
    );
}

/// A declaration in answer to an interest that was forwarded for `face`.
pub open spec fn answer(
    face: FaceId,
    id: TokenId,
    res: ResourceId,
    interest_id: InterestId,
) -> RoutedDeclare {
    RoutedDeclare {
        face,
        res,
        msg: Declare {
            interest_id: Some(interest_id),
            ext_qos: QoSType::Default,
            ext_nodeid: 0,
            body: DeclareBody::DeclareToken(DeclareToken { id, wire_expr: WireExpr::Best(res) }),
        },
    }
}

/// What is sent on `face`.
pub open spec fn sent_on(sent: Seq<RoutedDeclare>, face: FaceId) -> Seq<RoutedDeclare> {
    sent.filter(|m: RoutedDeclare| m.face == face)
}

/// Nothing is left of a list of which nothing passes.
proof fn lemma_filter_none<A>(s: Seq<A>, keep: spec_fn(A) -> bool)
    requires
        forall|i: int| 0 <= i < s.len() ==> !keep(#[trigger] s[i]),
    ensures
        s.filter(keep) == Seq::<A>::empty(),
{
    if s.filter(keep).len() > 0 {
        let x = s.filter(keep)[0];
        assert(s.filter(keep).contains(x));
        s.lemma_filter_contains_rev(keep, x);
        s.lemma_filter_pred(keep, 0);
        let i = choose|i: int| 0 <= i < s.len() && s[i] == x;
        assert(!keep(s[i]));
    }
    assert(s.filter(keep) =~= Seq::<A>::empty());
}

/// What is sent on a face is what the step of that face sends.
proof fn lemma_sent_on(t: TablesView, step: spec_fn(FaceId) -> FaceStep, n: int, face: FaceId)
    requires
        t.wf(),
        0 <= n <= t.faces.len(),
        forall|k: FaceId, i: int|
            k < n && t.faces[k as int].listed && 0 <= i < step(k).sent.len() ==> (
            #[trigger] step(k).sent[i]).face == k,
    ensures
        sent_on(sent_upto(t, step, n), face) == if face < n && t.faces[face as int].listed {
            step(face).sent
        } else {
            Seq::empty()
        },
    decreases n,
{
    let keep = |m: RoutedDeclare| m.face == face;
    if n == 0 {
        lemma_filter_none(sent_upto(t, step, n), keep);
    } else {
        lemma_sent_on(t, step, n - 1, face);
        let before = sent_upto(t, step, n - 1);
        let k = (n - 1) as FaceId;
        if t.faces[n - 1].listed {
            let now = step(k).sent;
            Seq::filter_distributes_over_add(before, now, keep);
            assert forall|i: int| 0 <= i < now.len() implies keep(#[trigger] now[i]) == (k == face)
                by {
                assert(step(k).sent[i].face == k);
            }
            if k == face {
                lemma_filter_all(now, keep);
                assert(Seq::<RoutedDeclare>::empty() + now =~= now);
            } else {
                lemma_filter_none(now, keep);
                assert(sent_on(before, face) + Seq::<RoutedDeclare>::empty() =~= sent_on(
                    before,
                    face,
                ));
            }
        }
    }
}

/// Passing a token on is offering it to each listed face on its own, and to no other.
pub proof fn law_propagate_offers_to_each_face(
    t: TablesView,
    res: ResourceId,
    src: FaceId,
    interest_id: Option<InterestId>,
    dst: FaceId,
)
    requires
        t.wf(),
        t.has_face(src),
        t.has_resource(res),
        t.has_face(dst),
    ensures
        ({
            let step = propagate(t, res, src, interest_id);
            let on_its_own = offer(t, dst, res, src, interest_id, None);
            &&& step.tables.zid == t.zid
            &&& step.tables.resources == t.resources
            &&& step.tables.faces.len() == t.faces.len()
            &&& t.faces[dst as int].listed ==> step.tables.faces[dst as int] == on_its_own.face
                && sent_on(step.sent, dst) == on_its_own.sent
            &&& !t.faces[dst as int].listed ==> step.tables.faces[dst as int]
                == t.faces[dst as int] && sent_on(step.sent, dst).len() == 0
        }),
{
    let step = |d: FaceId| offer(t, d, res, src, interest_id, None);
    assert forall|k: FaceId, i: int|
        k < t.faces.len() && t.faces[k as int].listed && 0 <= i < step(k).sent.len() implies (
    #[trigger] step(k).sent[i]).face == k by {
        law_offer_is_due(t, k, res, src, interest_id, None);
        let m = offer(t, k, res, src, interest_id, None).sent[i];
        assert(m.face == k);
    }
    lemma_sent_on(t, step, t.faces.len() as int, dst);
    assert(propagate(t, res, src, interest_id).sent == sent_upto(
        t,
        step,
        t.faces.len() as int,
    ));
}

/// Registering a token binds its number to its resource and marks its face there, and changes
/// nothing else.
pub proof fn law_register_binds_and_marks(t: TablesView, face: FaceId, id: TokenId, res: ResourceId)
    requires
        t.wf(),
        t.has_face(face),
        t.has_resource(res),
    ensures
        ({
            let u = registered(t, face, id, res);
            &&& u.zid == t.zid
            &&& u.faces.len() == t.faces.len()
            &&& u.resources.len() == t.resources.len()
            &&& forall|k: TokenId, r: ResourceId| #[trigger]
                u.faces[face as int].remote_tokens.contains((k, r)) <==> if k == id {
                    r == res
                } else {
                    t.faces[face as int].remote_tokens.contains((k, r))
                }
            &&& forall|f: FaceId|
                t.has_face(f) ==> (#[trigger] u.faces[f as int]) == (FaceView {
                    remote_tokens: if f == face {
                        u.faces[face as int].remote_tokens
                    } else {
                        t.faces[f as int].remote_tokens
                    },
                    ..t.faces[f as int]
                })
            &&& forall|r: ResourceId|
                t.has_resource(r) ==> (#[trigger] u.resources[r as int]) == (ResourceView {
                    session_ctxs: if r == res {
                        u.resources[res as int].session_ctxs
                    } else {
                        t.resources[r as int].session_ctxs
                    },
                    ..t.resources[r as int]
                })
            &&& forall|f: FaceId, ctx: SessionContext| #[trigger]
                u.resources[res as int].session_ctxs.contains((f, ctx)) <==> if f == face {
                    ctx.token
                } else {
                    t.resources[res as int].session_ctxs.contains((f, ctx))
                }
        }),
{
    assert(t.face_wf(t.faces[face as int]));
    assert(t.resource_wf(t.resources[res as int]));
    law_put(t.faces[face as int].remote_tokens, id, res);
    law_put(t.resources[res as int].session_ctxs, face, SessionContext { token: true });
    let u = registered(t, face, id, res);
    assert forall|f: FaceId, ctx: SessionContext| #[trigger]
        u.resources[res as int].session_ctxs.contains((f, ctx)) <==> if f == face {
            ctx.token
        } else {
            t.resources[res as int].session_ctxs.contains((f, ctx))
        } by {
        assert(ctx.token ==> ctx == SessionContext { token: true });
    }
}

/// What is known of a token once it is registered.
proof fn lemma_registered(t: TablesView, face: FaceId, id: TokenId, res: ResourceId)
    requires
        t.wf(),
        t.has_face(face),
        t.has_resource(res),
    ensures
        ({
            let u = registered(t, face, id, res);
            &&& u.wf()
            &&& u.zid == t.zid
            &&& u.faces.len() == t.faces.len()
            &&& u.resources.len() == t.resources.len()
            &&& forall|r: ResourceId, f: FaceId|
                t.has_resource(r) ==> (#[trigger] marked(u, r, f) <==> marked(t, r, f) || (r == res
                    && f == face))
            &&& forall|r: ResourceId, m: ResourceId|
                t.has_resource(r) ==> #[trigger] meets(u, r, m) == meets(t, r, m)
            &&& forall|f: FaceId|
                t.has_face(f) ==> (#[trigger] u.faces[f as int]).whatami == t.faces[f as int].whatami
                    && u.faces[f as int].zid == t.faces[f as int].zid && u.faces[f as int].listed
                    == t.faces[f as int].listed && u.faces[f as int].local_tokens
                    == t.faces[f as int].local_tokens && u.faces[f as int].next_id
                    == t.faces[f as int].next_id && u.faces[f as int].remote_interests
                    == t.faces[f as int].remote_interests
        }),
{
    let u = registered(t, face, id, res);
    law_register_binds_and_marks(t, face, id, res);
    lemma_registered_wf(t, face, id, res);
    assert forall|r: ResourceId, f: FaceId| t.has_resource(r) implies (#[trigger] marked(u, r, f)
        <==> marked(t, r, f) || (r == res && f == face)) by {
        let mark = SessionContext { token: true };
        if r == res {
            assert(u.resources[res as int].session_ctxs.contains((f, mark)) <==> if f == face {
                mark.token
            } else {
                t.resources[res as int].session_ctxs.contains((f, mark))
            });
        } else {
            assert(u.resources[r as int] == t.resources[r as int]);
        }
    }
    assert forall|r: ResourceId, m: ResourceId| t.has_resource(r) implies #[trigger] meets(u, r, m)
        == meets(t, r, m) by {
        assert(u.resources[r as int].context == t.resources[r as int].context);
    }
}

/// An interest asks for the same once a token is registered.
proof fn lemma_registered_asks(
    t: TablesView,
    face: FaceId,
    id: TokenId,
    res: ResourceId,
    i: RemoteInterest,
    src_interest_id: Option<InterestId>,
)
    requires
        t.wf(),
        t.has_face(face),
        t.has_resource(res),
        i.res matches Some(r) ==> t.has_resource(r),
    ensures
        asks_for(registered(t, face, id, res), i, res, src_interest_id) == asks_for(
            t,
            i,
            res,
            src_interest_id,
        ),
{
    lemma_registered(t, face, id, res);
    if i.res is Some {
        assert(meets(registered(t, face, id, res), i.res->0, res) == meets(t, i.res->0, res));
    }
}

/// A token answers an interest that is pending on its face, or is ignored if it answers one that
/// was neither forwarded nor sent there, or else is registered and passed on.
pub proof fn law_declare_outcome(t: TablesView, face: FaceId, interest_id: Option<InterestId>)
    requires
        t.wf(),
        t.has_face(face),
    ensures
        ({
            let f = t.faces[face as int];
            let pending = |i: InterestId|
                exists|p: CurrentInterest| #[trigger] f.pending_current_interests.contains((i, p));
            match declare_outcome(t, face, interest_id) {
                DeclareOutcome::Answered => interest_id is Some && pending(interest_id->0),
                DeclareOutcome::UnknownInterest => interest_id is Some && !pending(interest_id->0)
                    && !f.local_interests.contains(interest_id->0),
                DeclareOutcome::Propagated => interest_id is None || (!pending(interest_id->0)
                    && f.local_interests.contains(interest_id->0)),
            }
        }),
{
    let f = t.faces[face as int];
    assert(t.face_wf(f));
    if interest_id is Some {
        law_lookup(f.pending_current_interests, interest_id->0);
    }
}

/// Nobody waits for an answer to the interest on the face, and if there is one it was sent there.
pub open spec fn is_plain(f: FaceView, interest_id: Option<InterestId>) -> bool {
    interest_id matches Some(i) ==> f.local_interests.contains(i) && forall|p: CurrentInterest|
        !(#[trigger] f.pending_current_interests.contains((i, p)))
}

/// A token that answers no pending interest is passed on.
proof fn lemma_plain(t: TablesView, face: FaceId, interest_id: Option<InterestId>)
    requires
        t.wf(),
        t.has_face(face),
    ensures
        is_plain(t.faces[face as int], interest_id) <==> declare_outcome(t, face, interest_id)
            == DeclareOutcome::Propagated,
{
    law_declare_outcome(t, face, interest_id);
}

/// A token in answer to an interest that the node does not know of changes nothing and sends
/// nothing.
pub proof fn law_declare_ignores_unknown_interests(
    t: TablesView,
    face: FaceId,
    id: TokenId,
    res: ResourceId,
    interest_id: InterestId,
)
    requires
        t.wf(),
        t.has_face(face),
        !t.faces[face as int].local_interests.contains(interest_id),
        forall|p: CurrentInterest|
            !(#[trigger] t.faces[face as int].pending_current_interests.contains(
                (interest_id, p),
            )),
    ensures
        declared(t, face, id, res, Some(interest_id)).tables == t,
        declared(t, face, id, res, Some(interest_id)).sent.len() == 0,
{
    law_declare_outcome(t, face, Some(interest_id));
}

/// A token in answer to a pending interest is sent to the face that waits for it and to no
/// other, under the number of the interest there. Where tokens to come are asked for it carries
/// the number that the face keeps for it, which is the next one if it has none; else it carries
/// none and the face keeps nothing.
pub proof fn law_declare_answers_pending_interests(
    t: TablesView,
    face: FaceId,
    id: TokenId,
    res: ResourceId,
    interest_id: InterestId,
    pending: CurrentInterest,
)
    requires
        t.wf(),
        t.has_face(face),
        t.has_resource(res),
        t.faces[face as int].pending_current_interests.contains((interest_id, pending)),
    ensures
        ({
            let step = declared(t, face, id, res, Some(interest_id));
            let before = t.faces[pending.src_face as int];
            let after = step.tables.faces[pending.src_face as int];
            let keeps = pending.mode == InterestMode::Future || pending.mode
                == InterestMode::CurrentFuture;
            &&& t.has_face(pending.src_face)
            &&& exists|num: TokenId|
                {
                    &&& step.sent == seq![
                        #[trigger] answer(pending.src_face, num, res, pending.src_interest_id),
                    ]
                    &&& if !keeps {
                        num == 0 && after.local_tokens == before.local_tokens && after.next_id
                            == before.next_id
                    } else if told(before, res) {
                        before.local_tokens.contains((res, num)) && after.local_tokens
                            == before.local_tokens && after.next_id == before.next_id
                    } else {
                        num == before.next_id && after.next_id == (num + 1) % 0x1_0000_0000
                            && forall|r: ResourceId, k: TokenId| #[trigger]
                            after.local_tokens.contains((r, k)) <==> before.local_tokens.contains(
                                (r, k),
                            ) || (r == res && k == num)
                    }
                }
            &&& forall|f: FaceId|
                t.has_face(f) && f != pending.src_face ==> (
                #[trigger] step.tables.faces[f as int]).local_tokens == t.faces[f as int].local_tokens
                    && step.tables.faces[f as int].next_id == t.faces[f as int].next_id
        }),
{
    let s = t.faces[face as int].pending_current_interests;
    assert(t.face_wf(t.faces[face as int]));
    law_lookup(s, interest_id);
    assert(lookup(s, interest_id) == Some(pending));
    let i = choose|i: int| 0 <= i < s.len() && s[i] == (interest_id, pending);
    assert(t.has_face(s[i].1.src_face));
    let src = pending.src_face;
    let before = t.faces[src as int];
    assert(t.face_wf(before));
    lemma_told(before, res);
    law_put(before.local_tokens, res, before.next_id);
    lemma_registered(t, face, id, res);
    let step = declared(t, face, id, res, Some(interest_id));
    let num = id_for(before, res, pending.mode);
    let u = if pending.mode == InterestMode::CurrentFuture {
        registered(t, face, id, res)
    } else {
        t
    };
    assert(u.faces[src as int].local_tokens == before.local_tokens);
    assert(u.faces[src as int].next_id == before.next_id);
    assert(step.sent =~= seq![answer(src, num, res, pending.src_interest_id)]);
    let after = step.tables.faces[src as int];
    assert(after == with_id_for(u.faces[src as int], res, pending.mode));
    assert forall|f: FaceId| t.has_face(f) && f != src implies (
    #[trigger] step.tables.faces[f as int]).local_tokens == t.faces[f as int].local_tokens
        && step.tables.faces[f as int].next_id == t.faces[f as int].next_id by {
        assert(step.tables.faces[f as int] == u.faces[f as int]);
    }
    if has_key(before.local_tokens, res) {
        assert(before.local_tokens.contains((res, lookup(before.local_tokens, res)->0)));
    } else {
        assert forall|r: ResourceId, k: TokenId| #[trigger]
            put(before.local_tokens, res, before.next_id).contains((r, k))
            <==> before.local_tokens.contains((r, k)) || (r == res && k == before.next_id) by {
            if before.local_tokens.contains((res, k)) {
                assert(told(before, res));
            }
        }
    }
}

/// A token is registered exactly if it answers no interest, or one that was sent on its face and
/// is not pending, or a pending one that asks for present tokens and for those to come: then its
/// number is bound to its resource and its face is marked there, and nothing else changes in
/// what faces hold and resources record.
pub proof fn law_declare_registers(
    t: TablesView,
    face: FaceId,
    id: TokenId,
    res: ResourceId,
    interest_id: Option<InterestId>,
)
    requires
        t.wf(),
        t.has_face(face),
        t.has_resource(res),
    ensures
        ({
            let u = declared(t, face, id, res, interest_id).tables;
            let f = t.faces[face as int];
            let kept = is_plain(f, interest_id) || exists|p: CurrentInterest| #[trigger]
                f.pending_current_interests.contains((interest_id->0, p)) && interest_id is Some
                    && p.mode == InterestMode::CurrentFuture;
            &&& forall|g: FaceId, k: TokenId, r: ResourceId|
                t.has_face(g) ==> (#[trigger] u.faces[g as int].remote_tokens.contains((k, r))
                    <==> if kept && g == face && k == id {
                    r == res
                } else {
                    t.faces[g as int].remote_tokens.contains((k, r))
                })
            &&& forall|r: ResourceId, g: FaceId|
                t.has_resource(r) ==> (#[trigger] marked(u, r, g) <==> marked(t, r, g) || (kept
                    && r == res && g == face))
            &&& u.resources.len() == t.resources.len()
            &&& u.faces.len() == t.faces.len()
            &&& u.zid == t.zid
        }),
{
    let f = t.faces[face as int];
    let u = declared(t, face, id, res, interest_id).tables;
    let v = registered(t, face, id, res);
    assert(t.face_wf(f));
    lemma_registered(t, face, id, res);
    law_register_binds_and_marks(t, face, id, res);
    law_declare_outcome(t, face, interest_id);
    if interest_id is Some {
        law_lookup(f.pending_current_interests, interest_id->0);
    }
    match declare_outcome(t, face, interest_id) {
        DeclareOutcome::Answered => {
            let s = f.pending_current_interests;
            let p = lookup(s, interest_id->0)->0;
            assert(s.contains((interest_id->0, p)));
            let i = choose|i: int| 0 <= i < s.len() && s[i] == (interest_id->0, p);
            assert(t.has_face(s[i].1.src_face));
            let w = if p.mode == InterestMode::CurrentFuture {
                v
            } else {
                t
            };
            assert(u.resources == w.resources);
            assert forall|g: FaceId| t.has_face(g) implies (
            #[trigger] u.faces[g as int]).remote_tokens == w.faces[g as int].remote_tokens by {}
            assert forall|r: ResourceId, g: FaceId| #[trigger] marked(u, r, g) == marked(w, r, g)
                by {}
            assert forall|q: CurrentInterest| #[trigger] s.contains((interest_id->0, q)) implies q
                == p by {
                assert(lookup(s, interest_id->0) == Some(q));
            }
        },
        DeclareOutcome::UnknownInterest => {},
        DeclareOutcome::Propagated => {
            assert(is_plain(f, interest_id));
            law_propagate_frame(v, res, face, interest_id);
            assert forall|g: FaceId| t.has_face(g) implies (
            #[trigger] u.faces[g as int]).remote_tokens == v.faces[g as int].remote_tokens by {
                assert(only_local_tokens(v.faces[g as int], u.faces[g as int]));
            }
            assert forall|r: ResourceId, g: FaceId| #[trigger] marked(u, r, g) == marked(v, r, g)
                by {}
        },
    }
}

/// A client is told of a token that some face declares, whatever the role of that face, if it is
/// listed and another one than it or leads back here, has an interest in the token, does not have
/// it yet, and hears of it from no third face: afterwards it has a token on the resource that the
/// interest is answered on, and where it had none before it was sent its declaration.
pub proof fn law_declare_reaches_clients(
    t: TablesView,
    face: FaceId,
    id: TokenId,
    res: ResourceId,
    interest_id: Option<InterestId>,
    dst: FaceId,
    asked: (InterestId, RemoteInterest),
)
    requires
        t.wf(),
        t.has_face(face),
        t.has_resource(res),
        is_plain(t.faces[face as int], interest_id),
        t.has_face(dst),
        t.faces[dst as int].listed,
        role(t, dst) == WhatAmI::Client,
        face != dst || leads_back(t, dst),
        !told(t.faces[dst as int], res),
        forall|f: FaceId| #[trigger]
            marked(t, res, f) ==> f == face || (f == dst && !leads_back(t, dst)),
        t.faces[dst as int].remote_interests.contains(asked),
        asks_for(t, asked.1, res, interest_id),
    ensures
        ({
            let target = answered_on(asked.1, res);
            let before = t.faces[dst as int];
            let step = declared(t, face, id, res, interest_id);
            exists|num: TokenId| #[trigger]
                step.tables.faces[dst as int].local_tokens.contains((target, num)) && if told(
                    before,
                    target,
                ) {
                    before.local_tokens.contains((target, num))
                } else {
                    step.sent.contains(declaration(dst, num, target, None))
                }
        }),
{
    let u = registered(t, face, id, res);
    lemma_plain(t, face, interest_id);
    lemma_registered(t, face, id, res);
    let s = t.faces[dst as int].remote_interests;
    assert(t.face_wf(t.faces[dst as int]));
    let i = choose|i: int| 0 <= i < s.len() && s[i] == asked;
    assert(t.interest_wf(s[i].1));
    lemma_registered_asks(t, face, id, res, asked.1, interest_id);
    assert forall|f: FaceId| #[trigger] marked(u, res, f) implies f == face || (f == dst
        && !leads_back(u, dst)) by {
        assert(marked(t, res, f) || f == face);
    }
    assert(u.faces[dst as int].local_tokens == t.faces[dst as int].local_tokens);
    lemma_same_told(t.faces[dst as int], u.faces[dst as int]);
    law_offer_reaches_clients(u, dst, res, face, interest_id, None, asked);
    law_propagate_offers_to_each_face(u, res, face, interest_id, dst);
    lemma_sent_on_is_sent(declared(t, face, id, res, interest_id).sent, dst);
}

/// A peer or router that is listed is told of the token that a client declares if it does not
/// have it and hears of it from no other client.
pub proof fn law_declare_reaches_peers_and_routers(
    t: TablesView,
    face: FaceId,
    id: TokenId,
    res: ResourceId,
    interest_id: Option<InterestId>,
    dst: FaceId,
)
    requires
        t.wf(),
        t.has_face(face),
        t.has_resource(res),
        is_plain(t.faces[face as int], interest_id),
        role(t, face) == WhatAmI::Client,
        t.has_face(dst),
        t.faces[dst as int].listed,
        role(t, dst) != WhatAmI::Client,
        !told(t.faces[dst as int], res),
        forall|f: FaceId| #[trigger]
            marked(t, res, f) && role(t, f) == WhatAmI::Client ==> f == face,
    ensures
        ({
            let step = declared(t, face, id, res, interest_id);
            exists|num: TokenId| #[trigger]
                step.tables.faces[dst as int].local_tokens.contains((res, num)) && sent_on(
                    step.sent,
                    dst,
                ) == seq![declaration(dst, num, res, None)]
        }),
{
    let u = registered(t, face, id, res);
    lemma_plain(t, face, interest_id);
    lemma_registered(t, face, id, res);
    lemma_marked(t, res);
    assert forall|f: FaceId| #[trigger]
        marked(u, res, f) && role(u, f) == WhatAmI::Client implies f == face by {
        assert(marked(t, res, f) || f == face);
        if f != face {
            assert(t.has_face(f));
            assert(u.faces[f as int].whatami == t.faces[f as int].whatami);
        }
    }
    assert(u.faces[dst as int].local_tokens == t.faces[dst as int].local_tokens);
    lemma_same_told(t.faces[dst as int], u.faces[dst as int]);
    law_offer_reaches_peers_and_routers(u, dst, res, face, interest_id, None);
    law_propagate_offers_to_each_face(u, res, face, interest_id, dst);
}

/// What is sent when a token that answers no pending interest arrives is due: on a listed face
/// that is not the one it came from unless it leads back here, from or to a client, of a token
/// that the face did not have and does not hear of from a third face; a client is told what one
/// of its interests asks for, any other face of the resource itself. What a face had it keeps,
/// and what it gains it is told of, in answer to no interest.
pub proof fn law_declare_is_due(
    t: TablesView,
    face: FaceId,
    id: TokenId,
    res: ResourceId,
    interest_id: Option<InterestId>,
    dst: FaceId,
)
    requires
        t.wf(),
        t.has_face(face),
        t.has_resource(res),
        is_plain(t.faces[face as int], interest_id),
        t.has_face(dst),
    ensures
        ({
            let before = t.faces[dst as int];
            let step = declared(t, face, id, res, interest_id);
            let sent = sent_on(step.sent, dst);
            let after = step.tables.faces[dst as int];
            &&& sent.len() > 0 ==> {
                &&& before.listed
                &&& face != dst || leads_back(t, dst)
                &&& role(t, face) == WhatAmI::Client || role(t, dst) == WhatAmI::Client
                &&& !told(before, res)
                &&& forall|f: FaceId| #[trigger]
                    marked(t, res, f) ==> f == face || (f == dst && !leads_back(t, dst)) || (role(
                        t,
                        f,
                    ) != WhatAmI::Client && role(t, dst) != WhatAmI::Client)
            }
            &&& forall|i: int|
                #![trigger sent[i]]
                0 <= i < sent.len() ==> {
                    let m = sent[i];
                    &&& !told(before, m.res)
                    &&& m == declaration(
                        dst,
                        ((before.next_id + i) % 0x1_0000_0000) as u32,
                        m.res,
                        None,
                    )
                    &&& if role(t, dst) == WhatAmI::Client {
                        exists|e: (InterestId, RemoteInterest)|
                            #![trigger before.remote_interests.contains(e)]
                            before.remote_interests.contains(e) && asks_for(
                                t,
                                e.1,
                                res,
                                interest_id,
                            ) && m.res == answered_on(e.1, res)
                    } else {
                        m.res == res
                    }
                }
            &&& forall|i: int, j: int|
                #![trigger sent[i], sent[j]]
                0 <= i < j < sent.len() ==> sent[i].res != sent[j].res
            &&& forall|r: ResourceId, num: TokenId| #[trigger]
                after.local_tokens.contains((r, num)) <==> before.local_tokens.contains((r, num))
                    || sent.contains(declaration(dst, num, r, None))
            &&& after.next_id == (before.next_id + sent.len()) % 0x1_0000_0000
        }),
{
    let u = registered(t, face, id, res);
    let before = t.faces[dst as int];
    lemma_plain(t, face, interest_id);
    lemma_registered(t, face, id, res);
    lemma_marked(t, res);
    assert(u.faces[dst as int].local_tokens == before.local_tokens);
    assert(u.faces[dst as int].remote_interests == before.remote_interests);
    assert(u.faces[face as int].whatami == t.faces[face as int].whatami);
    law_propagate_offers_to_each_face(u, res, face, interest_id, dst);
    law_offer_is_due(u, dst, res, face, interest_id, None);
    law_offer_numbers(u, dst, res, face, interest_id, None);
    assert forall|r: ResourceId| #[trigger] told(u.faces[dst as int], r) == told(before, r) by {
        lemma_same_told(before, u.faces[dst as int]);
    }
    let step = declared(t, face, id, res, interest_id);
    let sent = sent_on(step.sent, dst);
    if before.listed {
        if sent.len() > 0 {
            assert forall|f: FaceId| #[trigger] marked(t, res, f) implies f == face || (f == dst
                && !leads_back(t, dst)) || (role(t, f) != WhatAmI::Client && role(t, dst)
                != WhatAmI::Client) by {
                assert(marked(u, res, f));
                assert(t.has_face(f));
                assert(u.faces[f as int].whatami == t.faces[f as int].whatami);
            }
        }
        assert forall|i: int|
            #![trigger sent[i]]
            0 <= i < sent.len() && role(t, dst) == WhatAmI::Client implies exists|
            e: (InterestId, RemoteInterest),
        |
            #![trigger before.remote_interests.contains(e)]
            before.remote_interests.contains(e) && asks_for(t, e.1, res, interest_id)
                && sent[i].res == answered_on(e.1, res) by {
            let m = offer(u, dst, res, face, interest_id, None).sent[i];
            let e = choose|e: (InterestId, RemoteInterest)|
                #![trigger before.remote_interests.contains(e)]
                before.remote_interests.contains(e) && asks_for(u, e.1, res, interest_id) && m.res
                    == answered_on(e.1, res);
            let s = before.remote_interests;
            assert(t.face_wf(before));
            let k = choose|k: int| 0 <= k < s.len() && s[k] == e;
            assert(t.interest_wf(s[k].1));
            lemma_registered_asks(t, face, id, res, e.1, interest_id);
        }
    }
}

/// Being told depends on the tokens alone.
proof fn lemma_same_told(f: FaceView, g: FaceView)
    requires
        f.local_tokens == g.local_tokens,
    ensures
        forall|r: ResourceId| #[trigger] told(f, r) == told(g, r),
{
    assert forall|r: ResourceId| #[trigger] told(f, r) == told(g, r) by {
        if told(f, r) {
            let id = choose|id: TokenId| #[trigger] f.local_tokens.contains((r, id));
            assert(g.local_tokens.contains((r, id)));
        }
        if told(g, r) {
            let id = choose|id: TokenId| #[trigger] g.local_tokens.contains((r, id));
            assert(f.local_tokens.contains((r, id)));
        }
    }
}

/// What is sent on a face is sent.
proof fn lemma_sent_on_is_sent(sent: Seq<RoutedDeclare>, face: FaceId)
    ensures
        forall|m: RoutedDeclare| #[trigger]
            sent_on(sent, face).contains(m) <==> sent.contains(m) && m.face == face,
{
    let keep = |m: RoutedDeclare| m.face == face;
    assert forall|m: RoutedDeclare| #[trigger]
        sent_on(sent, face).contains(m) <==> sent.contains(m) && m.face == face by {
        if sent_on(sent, face).contains(m) {
            sent.lemma_filter_contains_rev(keep, m);
            let i = choose|i: int| 0 <= i < sent.filter(keep).len() && sent.filter(keep)[i] == m;
            sent.lemma_filter_pred(keep, i);
        }
        if sent.contains(m) && m.face == face {
            let i = choose|i: int| 0 <= i < sent.len() && sent[i] == m;
            sent.lemma_filter_contains(keep, i);
        }
    }
}

/// The remote end of a face has a token on `res`, under any number.
pub open spec fn holds(f: FaceView, res: ResourceId) -> bool {
    exists|k: TokenId| #[trigger] f.remote_tokens.contains((k, res))
}

/// A token on `res` stays up on `face`: some face other than it, or it itself where it leads
/// back here, is marked on a resource that `res` meets and that has its matches.
pub open spec fn supported(t: TablesView, res: ResourceId, face: FaceId) -> bool {
    exists|m: ResourceId, g: FaceId|
        {
            &&& #[trigger] meets(t, res, m)
            &&& t.resources[m as int].context is Some
            &&& #[trigger] marked(t, m, g)
            &&& g != face || leads_back(t, face)
        }
}

/// Some interest of the face asks for each token on `res` by itself.
pub open spec fn asks_singly(t: TablesView, f: FaceView, res: ResourceId) -> bool {
    exists|e: (InterestId, RemoteInterest)|
        #![trigger f.remote_interests.contains(e)]
        f.remote_interests.contains(e) && e.1.options.tokens && !e.1.options.aggregate && (e.1.res
            is None || meets(t, e.1.res->0, res))
}

/// How a face fares when the token on `res` ends there. It keeps a token exactly if that is
/// another one and stays up, under the number that it had. For each that it loses it is sent an
/// undeclaration under that number. Where `one_shot` holds it is sent one more, under the next
/// number and with the key expression of `res`. Nothing else is sent, nothing twice, and nothing
/// else about the face changes.
pub open spec fn ends(
    t: TablesView,
    face: FaceId,
    before: FaceView,
    after: FaceView,
    sent: Seq<RoutedDeclare>,
    res: ResourceId,
    one_shot: bool,
) -> bool {
    &&& forall|r: ResourceId, num: TokenId| #[trigger]
        after.local_tokens.contains((r, num)) <==> before.local_tokens.contains((r, num)) && r
            != res && supported(t, r, face)
    &&& forall|r: ResourceId, num: TokenId| #[trigger]
        sent.contains(undeclaration(face, num, r, WireExpr::Empty))
            <==> before.local_tokens.contains((r, num)) && (r == res || !supported(t, r, face))
    &&& one_shot <==> sent.contains(
        undeclaration(face, before.next_id, res, WireExpr::Best(res)),
    )
    &&& forall|i: int|
        #![trigger sent[i]]
        0 <= i < sent.len() ==> sent[i] == undeclaration(
            face,
            before.next_id,
            res,
            WireExpr::Best(res),
        ) || exists|num: TokenId|
            sent[i] == #[trigger] undeclaration(face, num, sent[i].res, WireExpr::Empty)
    &&& forall|i: int, j: int|
        #![trigger sent[i], sent[j]]
        0 <= i < j < sent.len() ==> sent[i].res != sent[j].res
    &&& after.next_id == if one_shot {
        (before.next_id + 1) % 0x1_0000_0000
    } else {
        before.next_id as int
    }
    &&& after == (FaceView { local_tokens: after.local_tokens, next_id: after.next_id, ..before })
}

/// What is in a filtered list is what passes of what is in the list.
proof fn lemma_filter_contents<A>(s: Seq<A>, keep: spec_fn(A) -> bool)
    ensures
        forall|x: A| #[trigger] s.filter(keep).contains(x) <==> s.contains(x) && keep(x),
{
    assert forall|x: A| #[trigger] s.filter(keep).contains(x) <==> s.contains(x) && keep(x) by {
        if s.filter(keep).contains(x) {
            s.lemma_filter_contains_rev(keep, x);
            let i = choose|i: int| 0 <= i < s.filter(keep).len() && s.filter(keep)[i] == x;
            s.lemma_filter_pred(keep, i);
        }
        if s.contains(x) && keep(x) {
            let i = choose|i: int| 0 <= i < s.len() && s[i] == x;
            s.lemma_filter_contains(keep, i);
        }
    }
}

/// A token is backed exactly if it stays up.
proof fn lemma_supported(t: TablesView, res: ResourceId, face: FaceId)
    requires
        t.wf(),
        t.has_resource(res),
    ensures
        is_backed(t, res, face) <==> supported(t, res, face),
{
    assert(t.resource_wf(t.resources[res as int]));
    if is_backed(t, res, face) {
        let m = choose|m: ResourceId| #[trigger]
            t.matches(res, m) && t.has_context(m) && has_remote_token(t, m, face);
        let ms = t.resources[res as int].context->0;
        let i = choose|i: int| 0 <= i < ms.len() && ms[i] == m;
        assert(t.has_resource(ms[i]));
        lemma_marked(t, m);
        let g = choose|g: FaceId| #[trigger] t.declares(m, g) && (g != face || t.is_local(face));
        assert(meets(t, res, m) && marked(t, m, g));
    }
    if supported(t, res, face) {
        let (m, g) = choose|m: ResourceId, g: FaceId|
            {
                &&& #[trigger] meets(t, res, m)
                &&& t.resources[m as int].context is Some
                &&& #[trigger] marked(t, m, g)
                &&& g != face || leads_back(t, face)
            };
        let ms = t.resources[res as int].context->0;
        let i = choose|i: int| 0 <= i < ms.len() && ms[i] == m;
        assert(t.has_resource(ms[i]));
        lemma_marked(t, m);
        assert(t.declares(m, g));
        assert(has_remote_token(t, m, face));
        assert(t.matches(res, m));
    }
}

/// A face watches a resource exactly if one of its interests asks for its tokens by themselves.
proof fn lemma_watched(t: TablesView, face: FaceId, res: ResourceId)
    ensures
        is_watched(t, face, res) <==> asks_singly(t, t.faces[face as int], res),
{
    let f = t.faces[face as int];
    let s = f.remote_interests;
    if is_watched(t, face, res) {
        let k = choose|k: int|
            0 <= k < s.len() && (#[trigger] s[k]).1.options.tokens && interest_covers(
                t,
                s[k].1,
                res,
            ) && !s[k].1.options.aggregate;
        assert(s.contains(s[k]));
    }
    if asks_singly(t, f, res) {
        let e = choose|e: (InterestId, RemoteInterest)|
            #![trigger f.remote_interests.contains(e)]
            f.remote_interests.contains(e) && e.1.options.tokens && !e.1.options.aggregate && (
            e.1.res is None || meets(t, e.1.res->0, res));
        let k = choose|k: int| 0 <= k < s.len() && s[k] == e;
        assert(s[k].1.options.tokens && interest_covers(t, s[k].1, res));
    }
}

/// How a face fares when the token on `res` that came from `src` ends: it is sent a one-shot
/// undeclaration exactly if it is not the face that the news comes from, had no token on `res`,
/// and one of its interests asks for the tokens there by themselves.
pub proof fn law_end_on_a_face(t: TablesView, face: FaceId, res: ResourceId, src: FaceId)
    requires
        t.wf(),
        t.has_face(face),
        t.has_resource(res),
    ensures
        ({
            let before = t.faces[face as int];
            let step = forget_on(t, face, res, src);
            ends(
                t,
                face,
                before,
                step.face,
                step.sent,
                res,
                src != face && !told(before, res) && asks_singly(t, before, res),
            )
        }),
{
    let f = t.faces[face as int];
    let s = f.local_tokens;
    let step = forget_on(t, face, res, src);
    let first = retract(t, face, res, src);
    let rest = removed(s, res);
    let keep = |e: (ResourceId, TokenId)| is_backed(t, e.0, face);
    let gone = |e: (ResourceId, TokenId)| !is_backed(t, e.0, face);
    let name = |e: (ResourceId, TokenId)|
        RoutedDeclare::undeclares_token(face, e.1, e.0, WireExpr::Empty);
    assert(t.face_wf(f));
    lemma_told(f, res);
    lemma_watched(t, face, res);
    lemma_removed(s, res);
    law_removed(s, res);
    assert(first.face.local_tokens == rest);
    lemma_filter_contents(rest, keep);
    lemma_filter_contents(rest, gone);
    lemma_filter_unique(rest, gone);
    let lost = rest.filter(gone);
    let tail = lost.map_values(name);
    assert(step.sent == first.sent + tail);
    let one_shot = src != face && !told(f, res) && asks_singly(t, f, res);
    assert forall|r: ResourceId, num: TokenId| #[trigger] s.contains((r, num)) implies (is_backed(
        t,
        r,
        face,
    ) <==> supported(t, r, face)) by {
        let i = choose|i: int| 0 <= i < s.len() && s[i] == (r, num);
        assert(t.has_resource(s[i].0));
        lemma_supported(t, r, face);
    }
    assert forall|r: ResourceId, num: TokenId| #[trigger]
        step.face.local_tokens.contains((r, num)) <==> s.contains((r, num)) && r != res
        && supported(t, r, face) by {
        assert(rest.filter(keep).contains((r, num)) <==> rest.contains((r, num)) && keep((r, num)));
    }
    assert forall|i: int| 0 <= i < tail.len() implies (#[trigger] tail[i]) == undeclaration(
        face,
        lost[i].1,
        lost[i].0,
        WireExpr::Empty,
    ) && lost[i].0 != res && s.contains(lost[i]) && !supported(t, lost[i].0, face) by {
        assert(lost.contains(lost[i]));
        assert(lost[i] == (lost[i].0, lost[i].1));
        assert(rest.contains((lost[i].0, lost[i].1)));
    }
    assert forall|r: ResourceId, num: TokenId| #[trigger]
        step.sent.contains(undeclaration(face, num, r, WireExpr::Empty)) <==> s.contains((r, num))
        && (r == res || !supported(t, r, face)) by {
        let m = undeclaration(face, num, r, WireExpr::Empty);
        if step.sent.contains(m) {
            let i = choose|i: int| 0 <= i < step.sent.len() && step.sent[i] == m;
            if i < first.sent.len() {
                assert(first.sent[i] == m);
                assert(s.contains((res, num)));
            } else {
                assert(tail[i - first.sent.len()] == m);
            }
        }
        if s.contains((r, num)) && r == res {
            assert(told(f, res));
            assert(lookup(s, res) == Some(num));
            assert(step.sent[0] == m);
        }
        if s.contains((r, num)) && r != res && !supported(t, r, face) {
            assert(rest.contains((r, num)));
            assert(lost.contains((r, num)));
            let k = choose|k: int| 0 <= k < lost.len() && lost[k] == (r, num);
            assert(tail[k] == m);
            assert(step.sent[first.sent.len() + k] == m);
        }
    }
    let shot = undeclaration(face, f.next_id, res, WireExpr::Best(res));
    if one_shot {
        assert(step.sent[0] == shot);
    }
    if step.sent.contains(shot) {
        let i = choose|i: int| 0 <= i < step.sent.len() && step.sent[i] == shot;
        if i < first.sent.len() {
            assert(first.sent[i] == shot);
        } else {
            assert(tail[i - first.sent.len()] == shot);
        }
    }
    assert forall|i: int|
        #![trigger step.sent[i]]
        0 <= i < step.sent.len() implies step.sent[i] == shot || exists|num: TokenId|
        step.sent[i] == #[trigger] undeclaration(face, num, step.sent[i].res, WireExpr::Empty) by {
        if i < first.sent.len() {
            assert(step.sent[i] == first.sent[i]);
            if has_key(s, res) {
                assert(step.sent[i] == undeclaration(
                    face,
                    lookup(s, res)->0,
                    step.sent[i].res,
                    WireExpr::Empty,
                ));
            }
        } else {
            let k = i - first.sent.len();
            assert(step.sent[i] == tail[k]);
            assert(step.sent[i] == undeclaration(
                face,
                lost[k].1,
                step.sent[i].res,
                WireExpr::Empty,
            ));
        }
    }
    assert forall|i: int, j: int|
        #![trigger step.sent[i], step.sent[j]]
        0 <= i < j < step.sent.len() implies step.sent[i].res != step.sent[j].res by {
        let k = j - first.sent.len();
        assert(step.sent[j] == tail[k]);
        if i < first.sent.len() {
            assert(step.sent[i] == first.sent[i]);
        } else {
            assert(step.sent[i] == tail[i - first.sent.len()]);
            assert(lost[i - first.sent.len()].0 != lost[k].0);
        }
    }
}

/// Passing on the end of a token is ending it on each listed face on its own, and on no other.
pub proof fn law_propagate_forget_ends_on_each_face(
    t: TablesView,
    res: ResourceId,
    src: FaceId,
    face: FaceId,
)
    requires
        t.wf(),
        t.has_resource(res),
        t.has_face(face),
    ensures
        ({
            let step = propagate_forget(t, res, src);
            let before = t.faces[face as int];
            let after = step.tables.faces[face as int];
            &&& step.tables.zid == t.zid
            &&& step.tables.resources == t.resources
            &&& step.tables.faces.len() == t.faces.len()
            &&& before.listed ==> ends(
                t,
                face,
                before,
                after,
                sent_on(step.sent, face),
                res,
                src != face && !told(before, res) && asks_singly(t, before, res),
            )
            &&& !before.listed ==> after == before && sent_on(step.sent, face).len() == 0
        }),
{
    let step = |f: FaceId| forget_on(t, f, res, src);
    assert forall|k: FaceId, i: int|
        k < t.faces.len() && t.faces[k as int].listed && 0 <= i < step(k).sent.len() implies (
    #[trigger] step(k).sent[i]).face == k by {
        law_end_on_a_face(t, k, res, src);
        let m = forget_on(t, k, res, src).sent[i];
        assert(m.face == k);
    }
    lemma_sent_on(t, step, t.faces.len() as int, face);
    law_end_on_a_face(t, face, res, src);
}

/// Taking a mark away takes no other away and changes nothing else.
proof fn lemma_unmarked(t: TablesView, res: ResourceId, face: FaceId)
    requires
        t.wf(),
        t.has_face(face),
        t.has_resource(res),
    ensures
        ({
            let u = unmarked(t, res, face);
            &&& u.wf()
            &&& u.zid == t.zid
            &&& u.faces == t.faces
            &&& u.resources.len() == t.resources.len()
            &&& forall|r: ResourceId, g: FaceId|
                t.has_resource(r) ==> (#[trigger] marked(u, r, g) <==> marked(t, r, g) && !(r == res
                    && g == face))
            &&& forall|r: ResourceId|
                t.has_resource(r) ==> (#[trigger] u.resources[r as int]).context
                    == t.resources[r as int].context && u.resources[r as int].expr
                    == t.resources[r as int].expr
        }),
{
    let u = unmarked(t, res, face);
    let ctxs = t.resources[res as int].session_ctxs;
    let off = SessionContext { token: false };
    lemma_with_ctx_wf(t, res, face, off);
    assert(t.resource_wf(t.resources[res as int]));
    law_put(ctxs, face, off);
    law_lookup(ctxs, face);
    assert forall|r: ResourceId, g: FaceId| t.has_resource(r) implies (#[trigger] marked(u, r, g)
        <==> marked(t, r, g) && !(r == res && g == face)) by {
        let mark = SessionContext { token: true };
        if r == res {
            if has_key(ctxs, face) {
                assert(u.resources[res as int].session_ctxs == put(ctxs, face, off));
                assert(put(ctxs, face, off).contains((g, mark)) <==> if g == face {
                    mark == off
                } else {
                    ctxs.contains((g, mark))
                });
            } else {
                assert(!ctxs.contains((face, mark)));
            }
        }
    }
}

/// How many faces are marked shows in how many are listed as such.
proof fn lemma_left(t: TablesView, res: ResourceId)
    requires
        t.wf(),
        t.has_resource(res),
    ensures
        ({
            let left = token_faces(t.resources[res as int].session_ctxs);
            &&& left.len() == 0 <==> forall|g: FaceId| !(#[trigger] marked(t, res, g))
            &&& left.len() == 1 ==> marked(t, res, left[0]) && forall|g: FaceId| #[trigger]
                marked(t, res, g) ==> g == left[0]
            &&& forall|l: FaceId| #[trigger]
                marked(t, res, l) && (forall|g: FaceId| #[trigger] marked(t, res, g) ==> g == l)
                    ==> left.len() == 1 && left[0] == l
        }),
{
    let left = token_faces(t.resources[res as int].session_ctxs);
    law_token_faces(t, res);
    lemma_marked(t, res);
    assert forall|g: FaceId| #[trigger] marked(t, res, g) <==> left.contains(g) by {
        assert(t.declares(res, g) <==> left.contains(g));
    }
    if left.len() > 0 {
        assert(left.contains(left[0]));
    }
    if left.len() > 1 {
        assert(left.contains(left[1]));
        assert(left[0] != left[1]);
    }
}

/// Giving up a token takes the mark of its face away, unless the face holds it under another
/// number as well. Where no mark is left the token ends on every listed face; where the one mark
/// left is that of a face other than a client it ends there, without a one-shot undeclaration;
/// on every other face, and in every other case, nothing changes and nothing is sent.
pub proof fn law_undeclare_ends_where_it_has_to(
    t: TablesView,
    face: FaceId,
    res: ResourceId,
    other: FaceId,
)
    requires
        t.wf(),
        t.has_face(face),
        t.has_resource(res),
        t.has_face(other),
    ensures
        ({
            let step = undeclared(t, face, res);
            let u = step.tables;
            let before = t.faces[other as int];
            let after = u.faces[other as int];
            let sent = sent_on(step.sent, other);
            let given_up = !holds(t.faces[face as int], res);
            &&& u.zid == t.zid
            &&& u.faces.len() == t.faces.len()
            &&& u.resources.len() == t.resources.len()
            &&& forall|r: ResourceId, g: FaceId|
                t.has_resource(r) ==> (#[trigger] marked(u, r, g) <==> marked(t, r, g) && !(r == res
                    && g == face && given_up))
            &&& forall|r: ResourceId|
                t.has_resource(r) ==> (#[trigger] u.resources[r as int]).context
                    == t.resources[r as int].context && u.resources[r as int].expr
                    == t.resources[r as int].expr
            &&& if given_up && before.listed && (forall|g: FaceId|
                !(#[trigger] marked(u, res, g))) {
                ends(
                    u,
                    other,
                    before,
                    after,
                    sent,
                    res,
                    other != face && !told(before, res) && asks_singly(t, before, res),
                )
            } else if given_up && marked(u, res, other) && (forall|g: FaceId| #[trigger]
                marked(u, res, g) ==> g == other) && role(t, other) != WhatAmI::Client {
                ends(u, other, before, after, sent, res, false)
            } else {
                after == before && sent.len() == 0
            }
        }),
{
    let f = t.faces[face as int];
    let step = undeclared(t, face, res);
    let u = step.tables;
    let w = unmarked(t, res, face);
    let before = t.faces[other as int];
    assert(t.face_wf(f));
    lemma_holds_raw(f, res);
    lemma_unmarked(t, res, face);
    lemma_undeclared_frame(t, face, res);
    if f.holds_remote_token(res) {
        lemma_filter_none(step.sent, |m: RoutedDeclare| m.face == other);
    } else {
        let left = token_faces(w.resources[res as int].session_ctxs);
        lemma_left(w, res);
        assert(u.resources == w.resources && u.zid == w.zid);
        assert forall|r: ResourceId, g: FaceId| #[trigger] marked(u, r, g) == marked(w, r, g) by {}
        assert forall|r: ResourceId, m: ResourceId| #[trigger] meets(u, r, m) == meets(w, r, m) by {}
        assert forall|r: ResourceId, m: ResourceId| t.has_resource(r) implies #[trigger] meets(
            w,
            r,
            m,
        ) == meets(t, r, m) by {
            assert(w.resources[r as int].context == t.resources[r as int].context);
        }
        assert(only_local_tokens(w.faces[other as int], u.faces[other as int]));
        let after = u.faces[other as int];
        let sent = sent_on(step.sent, other);
        lemma_asks_singly_frame(t, w, before, res);
        let asked = other != face && !told(before, res) && asks_singly(t, before, res);
        lemma_ends_frame(w, u, other, before, after, sent, res, asked);
        lemma_ends_frame(w, u, other, before, after, sent, res, false);
        if left.len() == 0 {
            law_propagate_forget_ends_on_each_face(w, res, face, other);
            assert(forall|g: FaceId| !(#[trigger] marked(u, res, g)));
        } else if left.len() == 1 && w.faces[left[0] as int].whatami != WhatAmI::Client {
            let last = left[0];
            lemma_marked(w, res);
            assert(w.has_face(last));
            assert(marked(u, res, last));
            assert(forall|g: FaceId| #[trigger] marked(u, res, g) ==> g == last);
            law_end_on_a_face(w, last, res, last);
            let keep = |m: RoutedDeclare| m.face == other;
            assert(step.sent == forget_on(w, last, res, last).sent);
            assert forall|i: int| 0 <= i < step.sent.len() implies keep(#[trigger] step.sent[i])
                == (last == other) by {
                let m = forget_on(w, last, res, last).sent[i];
                assert(m.face == last);
            }
            if last == other {
                lemma_filter_all(step.sent, keep);
            } else {
                lemma_filter_none(step.sent, keep);
            }
        } else {
            lemma_filter_none(step.sent, |m: RoutedDeclare| m.face == other);
            if left.len() == 1 {
                assert(marked(u, res, left[0]));
            } else {
                let g = choose|g: FaceId| #[trigger] marked(w, res, g);
                assert(marked(u, res, g));
                if marked(u, res, other) && (forall|g: FaceId| #[trigger]
                    marked(u, res, g) ==> g == other) {
                    assert forall|g: FaceId| #[trigger] marked(w, res, g) implies g == other by {
                        assert(marked(u, res, g));
                    }
                    assert(marked(w, res, other));
                }
            }
        }
    }
}

/// How a face fares depends on what stays up there.
proof fn lemma_ends_frame(
    t: TablesView,
    u: TablesView,
    face: FaceId,
    before: FaceView,
    after: FaceView,
    sent: Seq<RoutedDeclare>,
    res: ResourceId,
    one_shot: bool,
)
    requires
        t.resources == u.resources,
        t.zid == u.zid,
        t.faces[face as int].zid == u.faces[face as int].zid,
    ensures
        ends(t, face, before, after, sent, res, one_shot) == ends(
            u,
            face,
            before,
            after,
            sent,
            res,
            one_shot,
        ),
{
    assert forall|r: ResourceId| #[trigger] supported(t, r, face) == supported(u, r, face) by {
        lemma_supported_frame(t, u, r, face);
    }
}

/// What stays up depends on marks, matches and where the face leads.
proof fn lemma_supported_frame(t: TablesView, u: TablesView, res: ResourceId, face: FaceId)
    requires
        t.resources == u.resources,
        t.zid == u.zid,
        t.faces[face as int].zid == u.faces[face as int].zid,
    ensures
        supported(t, res, face) == supported(u, res, face),
{
    assert forall|m: ResourceId, g: FaceId| #[trigger] marked(t, m, g) == marked(u, m, g) by {}
    assert forall|m: ResourceId| #[trigger] meets(t, res, m) == meets(u, res, m) by {}
    if supported(t, res, face) {
        let (m, g) = choose|m: ResourceId, g: FaceId|
            {
                &&& #[trigger] meets(t, res, m)
                &&& t.resources[m as int].context is Some
                &&& #[trigger] marked(t, m, g)
                &&& g != face || leads_back(t, face)
            };
        assert(meets(u, res, m) && marked(u, m, g));
    }
    if supported(u, res, face) {
        let (m, g) = choose|m: ResourceId, g: FaceId|
            {
                &&& #[trigger] meets(u, res, m)
                &&& u.resources[m as int].context is Some
                &&& #[trigger] marked(u, m, g)
                &&& g != face || leads_back(u, face)
            };
        assert(meets(t, res, m) && marked(t, m, g));
    }
}

/// What interests ask for by itself depends on matches.
proof fn lemma_asks_singly_frame(t: TablesView, u: TablesView, f: FaceView, res: ResourceId)
    requires
        t.face_wf(f),
        forall|r: ResourceId|
            t.has_resource(r) ==> #[trigger] meets(t, r, res) == meets(u, r, res),
    ensures
        asks_singly(t, f, res) == asks_singly(u, f, res),
{
    let s = f.remote_interests;
    assert forall|e: (InterestId, RemoteInterest)|
        #![trigger s.contains(e)]
        s.contains(e) && e.1.res is Some implies meets(t, e.1.res->0, res) == meets(
        u,
        e.1.res->0,
        res,
    ) by {
        let k = choose|k: int| 0 <= k < s.len() && s[k] == e;
        assert(t.interest_wf(s[k].1));
        assert(t.has_resource(e.1.res->0));
    }
    if asks_singly(t, f, res) {
        let e = choose|e: (InterestId, RemoteInterest)|
            #![trigger f.remote_interests.contains(e)]
            f.remote_interests.contains(e) && e.1.options.tokens && !e.1.options.aggregate && (
            e.1.res is None || meets(t, e.1.res->0, res));
        assert(s.contains(e));
    }
    if asks_singly(u, f, res) {
        let e = choose|e: (InterestId, RemoteInterest)|
            #![trigger f.remote_interests.contains(e)]
            f.remote_interests.contains(e) && e.1.options.tokens && !e.1.options.aggregate && (
            e.1.res is None || meets(u, e.1.res->0, res));
        assert(s.contains(e));
    }
}

/// Holding a token is having it in the list.
proof fn lemma_holds_raw(f: FaceView, res: ResourceId)
    ensures
        f.holds_remote_token(res) <==> holds(f, res),
{
    let s = f.remote_tokens;
    if f.holds_remote_token(res) {
        let i = choose|i: int| 0 <= i < s.len() && (#[trigger] s[i]).1 == res;
        assert(s[i] == (s[i].0, res));
        assert(s.contains((s[i].0, res)));
    }
    if holds(f, res) {
        let k = choose|k: TokenId| #[trigger] f.remote_tokens.contains((k, res));
        let i = choose|i: int| 0 <= i < s.len() && s[i] == (k, res);
        assert(s[i].1 == res);
    }
}

/// A number that is bound says which token ends; one that is not leaves it to the resource that
/// came along.
pub proof fn law_forgotten_resource(
    t: TablesView,
    face: FaceId,
    id: TokenId,
    res: Option<ResourceId>,
)
    requires
        t.wf(),
        t.has_face(face),
    ensures
        forall|r: ResourceId| #[trigger]
            t.faces[face as int].remote_tokens.contains((id, r)) ==> forgotten_resource(
                t,
                face,
                id,
                res,
            ) == Some(r),
        (forall|r: ResourceId| !(#[trigger] t.faces[face as int].remote_tokens.contains((id, r))))
            ==> forgotten_resource(t, face, id, res) == res,
{
    assert(t.face_wf(t.faces[face as int]));
    law_lookup(t.faces[face as int].remote_tokens, id);
    let s = t.faces[face as int].remote_tokens;
    if has_key(s, id) {
        assert(s.contains((id, lookup(s, id)->0)));
    }
}

/// The face is about to give up the token on `gone`: it is bound to the number, or came along
/// with a number that is not bound.
pub open spec fn names(f: FaceView, id: TokenId, res: Option<ResourceId>, gone: ResourceId) -> bool {
    f.remote_tokens.contains((id, gone)) || (res == Some(gone) && forall|r: ResourceId|
        !(#[trigger] f.remote_tokens.contains((id, r))))
}

/// The end of a token unbinds its number and takes the mark of its face away, unless the face
/// holds it under another number as well. Where no mark is left the token ends on every listed
/// face; where the one mark left is that of a face other than a client it ends there, without a
/// one-shot undeclaration; on every other face, and in every other case, nothing else changes
/// and nothing is sent.
pub proof fn law_forget_ends_where_it_has_to(
    t: TablesView,
    face: FaceId,
    id: TokenId,
    res: Option<ResourceId>,
    gone: ResourceId,
    other: FaceId,
)
    requires
        t.wf(),
        t.has_face(face),
        res matches Some(r) ==> t.has_resource(r),
        names(t.faces[face as int], id, res, gone),
        t.has_face(other),
    ensures
        ({
            let step = forgotten(t, face, id, res);
            let u = step.tables;
            let before = t.faces[other as int];
            let after = u.faces[other as int];
            let sent = sent_on(step.sent, other);
            let given_up = forall|k: TokenId|
                k != id ==> !(#[trigger] t.faces[face as int].remote_tokens.contains((k, gone)));
            let held = FaceView { remote_tokens: after.remote_tokens, ..before };
            &&& t.has_resource(gone)
            &&& u.zid == t.zid
            &&& u.faces.len() == t.faces.len()
            &&& u.resources.len() == t.resources.len()
            &&& forall|k: TokenId, r: ResourceId| #[trigger]
                after.remote_tokens.contains((k, r)) <==> before.remote_tokens.contains((k, r))
                    && !(other == face && k == id)
            &&& forall|r: ResourceId, g: FaceId|
                t.has_resource(r) ==> (#[trigger] marked(u, r, g) <==> marked(t, r, g) && !(r
                    == gone && g == face && given_up))
            &&& forall|r: ResourceId|
                t.has_resource(r) ==> (#[trigger] u.resources[r as int]).context
                    == t.resources[r as int].context && u.resources[r as int].expr
                    == t.resources[r as int].expr
            &&& if given_up && before.listed && (forall|g: FaceId|
                !(#[trigger] marked(u, gone, g))) {
                ends(
                    u,
                    other,
                    held,
                    after,
                    sent,
                    gone,
                    other != face && !told(before, gone) && asks_singly(t, before, gone),
                )
            } else if given_up && marked(u, gone, other) && (forall|g: FaceId| #[trigger]
                marked(u, gone, g) ==> g == other) && role(t, other) != WhatAmI::Client {
                ends(u, other, held, after, sent, gone, false)
            } else {
                after == held && sent.len() == 0
            }
        }),
{
    let f = t.faces[face as int];
    let s = f.remote_tokens;
    let g = f.without_remote_token(id);
    let v = t.with_face(face, g);
    let before = t.faces[other as int];
    assert(t.face_wf(f));
    law_forgotten_resource(t, face, id, res);
    law_removed(s, id);
    lemma_removed(s, id);
    if s.contains((id, gone)) {
        let i = choose|i: int| 0 <= i < s.len() && s[i] == (id, gone);
        assert(t.has_resource(s[i].1));
    }
    lemma_without_remote_token_wf(t, f, id);
    lemma_with_face_wf(t, face, g);
    law_undeclare_ends_where_it_has_to(v, face, gone, other);
    let step = forgotten(t, face, id, res);
    assert(step == undeclared(v, face, gone));
    let given_up = forall|k: TokenId| k != id ==> !(#[trigger] s.contains((k, gone)));
    assert(v.faces[face as int] == g);
    if holds(g, gone) {
        let k = choose|k: TokenId| #[trigger] g.remote_tokens.contains((k, gone));
        assert(s.contains((k, gone)) && k != id);
    }
    if !given_up {
        let k = choose|k: TokenId| k != id && #[trigger] s.contains((k, gone));
        assert(g.remote_tokens.contains((k, gone)));
    }
    assert(given_up == !holds(v.faces[face as int], gone));
    let after = step.tables.faces[other as int];
    let held = FaceView { remote_tokens: after.remote_tokens, ..before };
    assert forall|r: ResourceId, h: FaceId| #[trigger] marked(v, r, h) == marked(t, r, h) by {}
    assert forall|r: ResourceId, m: ResourceId| #[trigger] meets(v, r, m) == meets(t, r, m) by {}
    assert(after.remote_tokens == v.faces[other as int].remote_tokens);
    assert(v.faces[other as int] == held);
    lemma_same_told(before, v.faces[other as int]);
    assert(told(before, gone) == told(v.faces[other as int], gone));
    lemma_asks_singly_frame(t, v, before, gone);
    lemma_same_asks(v, before, v.faces[other as int], gone);
}

/// What interests ask for by itself depends on the interests alone.
proof fn lemma_same_asks(t: TablesView, f: FaceView, g: FaceView, res: ResourceId)
    requires
        f.remote_interests == g.remote_interests,
    ensures
        asks_singly(t, f, res) == asks_singly(t, g, res),
{
    if asks_singly(t, f, res) {
        let e = choose|e: (InterestId, RemoteInterest)|
            #![trigger f.remote_interests.contains(e)]
            f.remote_interests.contains(e) && e.1.options.tokens && !e.1.options.aggregate && (
            e.1.res is None || meets(t, e.1.res->0, res));
        assert(g.remote_interests.contains(e));
    }
    if asks_singly(t, g, res) {
        let e = choose|e: (InterestId, RemoteInterest)|
            #![trigger g.remote_interests.contains(e)]
            g.remote_interests.contains(e) && e.1.options.tokens && !e.1.options.aggregate && (
            e.1.res is None || meets(t, e.1.res->0, res));
        assert(f.remote_interests.contains(e));
    }
}

/// When a token ends every face, of whatever role, keeps each other token that it had been told
/// of, under the same number and without an undeclaration, as long as some face other than it
/// is still marked on a resource with matches that the kept one meets.
pub proof fn law_forget_keeps_what_stays_up(
    t: TablesView,
    face: FaceId,
    id: TokenId,
    res: Option<ResourceId>,
    gone: ResourceId,
    other: FaceId,
    kept: ResourceId,
    num: TokenId,
    met: ResourceId,
    by: FaceId,
)
    requires
        t.wf(),
        t.has_face(face),
        res matches Some(r) ==> t.has_resource(r),
        names(t.faces[face as int], id, res, gone),
        t.has_face(other),
        t.faces[other as int].local_tokens.contains((kept, num)),
        kept != gone,
        t.resources[kept as int].context matches Some(m) && m.contains(met),
        t.resources[met as int].context is Some,
        forgotten(t, face, id, res).tables.resources[met as int].session_ctxs.contains(
            (by, SessionContext { token: true }),
        ),
        by != other || t.faces[other as int].zid == t.zid,
    ensures
        forgotten(t, face, id, res).tables.faces[other as int].local_tokens.contains((kept, num)),
        forall|i: int|
            #![trigger forgotten(t, face, id, res).sent[i]]
            0 <= i < forgotten(t, face, id, res).sent.len() && forgotten(
                t,
                face,
                id,
                res,
            ).sent[i].face == other ==> forgotten(t, face, id, res).sent[i].res != kept,
{
    let step = forgotten(t, face, id, res);
    let u = step.tables;
    let before = t.faces[other as int];
    law_forget_ends_where_it_has_to(t, face, id, res, gone, other);
    assert(t.face_wf(before));
    let s = before.local_tokens;
    let i = choose|i: int| 0 <= i < s.len() && s[i] == (kept, num);
    assert(t.has_resource(s[i].0));
    assert(t.resource_wf(t.resources[kept as int]));
    let ms = t.resources[kept as int].context->0;
    let j = choose|j: int| 0 <= j < ms.len() && ms[j] == met;
    assert(t.has_resource(ms[j]));
    assert(u.resources[kept as int].context == t.resources[kept as int].context);
    assert(u.resources[met as int].context == t.resources[met as int].context);
    assert(meets(u, kept, met) && marked(u, met, by));
    let after = u.faces[other as int];
    assert(after.zid == before.zid);
    assert(supported(u, kept, other));
    lemma_sent_on_is_sent(step.sent, other);
    lemma_told_once(t, other, kept, num);
    assert forall|k: int|
        #![trigger step.sent[k]]
        0 <= k < step.sent.len() && step.sent[k].face == other implies step.sent[k].res != kept by {
        let m = step.sent[k];
        let sent = sent_on(step.sent, other);
        assert(step.sent.contains(m));
        assert(sent.contains(m));
        let l = choose|l: int| 0 <= l < sent.len() && sent[l] == m;
        if m.res == kept {
            let n = choose|n: TokenId|
                sent[l] == #[trigger] undeclaration(other, n, sent[l].res, WireExpr::Empty);
            assert(sent.contains(undeclaration(other, n, kept, WireExpr::Empty)));
        }
    }
}

/// A face keeps one number for a token.
proof fn lemma_told_once(t: TablesView, face: FaceId, res: ResourceId, num: TokenId)
    requires
        t.wf(),
        t.has_face(face),
        t.faces[face as int].local_tokens.contains((res, num)),
    ensures
        forall|n: TokenId| #[trigger]
            t.faces[face as int].local_tokens.contains((res, n)) ==> n == num,
{
    assert(t.face_wf(t.faces[face as int]));
    law_lookup(t.faces[face as int].local_tokens, res);
}

/// Where a number is not bound and no resource came along, nothing changes and nothing is sent.
pub proof fn law_forget_needs_a_token(t: TablesView, face: FaceId, id: TokenId)
    requires
        t.wf(),
        t.has_face(face),
        forall|r: ResourceId| !(#[trigger] t.faces[face as int].remote_tokens.contains((id, r))),
    ensures
        forgotten_resource(t, face, id, None) is None,
        forgotten(t, face, id, None).tables == t,
        forgotten(t, face, id, None).sent.len() == 0,
{
    law_forgotten_resource(t, face, id, None);
}

/// However a token arrives, every face stays who it is, listed or not, with its interests, and
/// every resource keeps its expression and its matches.
pub proof fn law_declare_frame(
    t: TablesView,
    face: FaceId,
    id: TokenId,
    res: ResourceId,
    interest_id: Option<InterestId>,
)
    requires
        t.wf(),
        t.has_face(face),
        t.has_resource(res),
    ensures
        ({
            let u = declared(t, face, id, res, interest_id).tables;
            &&& forall|f: FaceId|
                t.has_face(f) ==> (#[trigger] u.faces[f as int]) == (FaceView {
                    next_id: u.faces[f as int].next_id,
                    local_tokens: u.faces[f as int].local_tokens,
                    remote_tokens: u.faces[f as int].remote_tokens,
                    ..t.faces[f as int]
                })
            &&& forall|r: ResourceId|
                t.has_resource(r) ==> (#[trigger] u.resources[r as int]) == (ResourceView {
                    session_ctxs: u.resources[r as int].session_ctxs,
                    ..t.resources[r as int]
                })
        }),
{
    let u = declared(t, face, id, res, interest_id).tables;
    let v = registered(t, face, id, res);
    let f = t.faces[face as int];
    assert(t.face_wf(f));
    law_register_binds_and_marks(t, face, id, res);
    lemma_registered(t, face, id, res);
    match declare_outcome(t, face, interest_id) {
        DeclareOutcome::Answered => {
            let s = f.pending_current_interests;
            law_lookup(s, interest_id->0);
            let p = lookup(s, interest_id->0)->0;
            assert(s.contains((interest_id->0, p)));
            let i = choose|i: int| 0 <= i < s.len() && s[i] == (interest_id->0, p);
            assert(t.has_face(s[i].1.src_face));
            let w = if p.mode == InterestMode::CurrentFuture {
                v
            } else {
                t
            };
            assert(u.resources == w.resources);
            assert forall|g: FaceId| t.has_face(g) implies (#[trigger] u.faces[g as int])
                == (FaceView {
                next_id: u.faces[g as int].next_id,
                local_tokens: u.faces[g as int].local_tokens,
                remote_tokens: u.faces[g as int].remote_tokens,
                ..t.faces[g as int]
            }) by {
                assert(w.faces[g as int] == (FaceView {
                    remote_tokens: w.faces[g as int].remote_tokens,
                    ..t.faces[g as int]
                }));
            }
        },
        DeclareOutcome::UnknownInterest => {},
        DeclareOutcome::Propagated => {
            law_propagate_frame(v, res, face, interest_id);
            assert forall|g: FaceId| t.has_face(g) implies (#[trigger] u.faces[g as int])
                == (FaceView {
                next_id: u.faces[g as int].next_id,
                local_tokens: u.faces[g as int].local_tokens,
                remote_tokens: u.faces[g as int].remote_tokens,
                ..t.faces[g as int]
            }) by {
                assert(only_local_tokens(v.faces[g as int], u.faces[g as int]));
                assert(v.faces[g as int] == (FaceView {
                    remote_tokens: v.faces[g as int].remote_tokens,
                    ..t.faces[g as int]
                }));
            }
        },
    }
}

/// The faces listed as having declared a token are those that are marked.
pub proof fn law_token_faces_are_marked(t: TablesView, res: ResourceId)
    requires
        t.wf(),
        t.has_resource(res),
    ensures
        forall|f: FaceId| #[trigger]
            token_faces(t.resources[res as int].session_ctxs).contains(f) <==> marked(t, res, f),
        token_faces(t.resources[res as int].session_ctxs).no_duplicates(),
{
    law_token_faces(t, res);
    lemma_marked(t, res);
    let faces = token_faces(t.resources[res as int].session_ctxs);
    assert forall|f: FaceId| #[trigger] faces.contains(f) <==> marked(t, res, f) by {
        assert(t.declares(res, f) <==> marked(t, res, f));
    }
}

/// Some face declared a token that `face` is owed exactly if another one is marked, or it itself
/// where it leads back here.
pub proof fn law_remote_tokens_are_marked(t: TablesView, res: ResourceId, face: FaceId)
    requires
        t.wf(),
        t.has_resource(res),
    ensures
        has_remote_token(t, res, face) <==> exists|g: FaceId| #[trigger]
            marked(t, res, g) && (g != face || leads_back(t, face)),
{
    lemma_marked(t, res);
    if has_remote_token(t, res, face) {
        let g = choose|g: FaceId| #[trigger] t.declares(res, g) && (g != face || t.is_local(face));
        assert(marked(t, res, g));
    }
    if exists|g: FaceId| #[trigger] marked(t, res, g) && (g != face || leads_back(t, face)) {
        let g = choose|g: FaceId| #[trigger]
            marked(t, res, g) && (g != face || leads_back(t, face));
        assert(t.declares(res, g));
    }
}

/// The number made for a token is the one that the face keeps for it, or the next one, which it
/// keeps from then on; where tokens to come are not asked for it is none and nothing is kept.
pub proof fn law_token_number(f: FaceView, res: ResourceId, mode: InterestMode)
    requires
        unique_keys(f.local_tokens),
    ensures
        ({
            let id = id_for(f, res, mode);
            let g = with_id_for(f, res, mode);
            if mode != InterestMode::Future && mode != InterestMode::CurrentFuture {
                id == 0 && g == f
            } else if told(f, res) {
                f.local_tokens.contains((res, id)) && g == f
            } else {
                &&& id == f.next_id
                &&& g == (FaceView { next_id: g.next_id, local_tokens: g.local_tokens, ..f })
                &&& g.next_id == (f.next_id + 1) % 0x1_0000_0000
                &&& forall|r: ResourceId, k: TokenId| #[trigger]
                    g.local_tokens.contains((r, k)) <==> f.local_tokens.contains((r, k)) || (r
                        == res && k == id)
            }
        }),
{
    lemma_told(f, res);
    law_put(f.local_tokens, res, f.next_id);
    if has_key(f.local_tokens, res) {
        assert(f.local_tokens.contains((res, lookup(f.local_tokens, res)->0)));
    } else {
        assert forall|r: ResourceId, k: TokenId| #[trigger]
            put(f.local_tokens, res, f.next_id).contains((r, k)) <==> f.local_tokens.contains(
            (r, k),
        ) || (r == res && k == f.next_id) by {
            if f.local_tokens.contains((res, k)) {
                assert(told(f, res));
            }
        }
    }
}

/// The known tokens are those that listed faces hold, those of routers only where they count.
proof fn lemma_known(t: TablesView, routers: bool)
    requires
        t.wf(),
    ensures
        forall|f: FaceId, r: ResourceId| #[trigger]
            known_tokens(t, routers).contains((f, r)) <==> t.has_face(f)
                && t.faces[f as int].listed && (routers || role(t, f) != WhatAmI::Router) && holds(
                t.faces[f as int],
                r,
            ),
        forall|f: FaceId, r: ResourceId| #[trigger]
            known_tokens(t, routers).contains((f, r)) ==> t.has_resource(r),
{
    let tokens = known_tokens(t, routers);
    law_known_tokens(t, routers, t.faces.len() as int);
    assert forall|f: FaceId, r: ResourceId| #[trigger] tokens.contains((f, r)) <==> t.has_face(f)
        && t.faces[f as int].listed && (routers || role(t, f) != WhatAmI::Router) && holds(
        t.faces[f as int],
        r,
    ) by {
        if t.has_face(f) {
            lemma_holds_raw(t.faces[f as int], r);
        }
        if tokens.contains((f, r)) {
            let i = choose|i: int| 0 <= i < tokens.len() && tokens[i] == (f, r);
            assert(known_tokens_upto(t, routers, t.faces.len() as int)[i] == (f, r));
            lemma_holds_raw(t.faces[f as int], r);
        }
    }
    assert forall|f: FaceId, r: ResourceId| #[trigger] tokens.contains((f, r)) implies
        t.has_resource(r) by {
        let i = choose|i: int| 0 <= i < tokens.len() && tokens[i] == (f, r);
        assert(known_tokens_upto(t, routers, t.faces.len() as int)[i] == (f, r));
    }
}

/// Of each listed face that counts every token is known as often as it is held, in the order of
/// its list, and of any other face none is.
pub proof fn law_known_tokens_of_a_face(t: TablesView, routers: bool, face: FaceId)
    requires
        t.wf(),
        t.has_face(face),
    ensures
        known_tokens(t, routers).filter(|e: (FaceId, ResourceId)| e.0 == face) == if
            t.faces[face as int].listed && (routers || role(t, face) != WhatAmI::Router) {
            t.faces[face as int].remote_tokens.map_values(
                |e: (TokenId, ResourceId)| (face, e.1),
            )
        } else {
            Seq::empty()
        },
{
    lemma_known_of_a_face(t, routers, face, t.faces.len() as int);
}

proof fn lemma_known_of_a_face(t: TablesView, routers: bool, face: FaceId, n: int)
    requires
        t.wf(),
        t.has_face(face),
        0 <= n <= t.faces.len(),
    ensures
        known_tokens_upto(t, routers, n).filter(|e: (FaceId, ResourceId)| e.0 == face) == if face
            < n && t.faces[face as int].listed && (routers || role(t, face) != WhatAmI::Router) {
            t.faces[face as int].remote_tokens.map_values(
                |e: (TokenId, ResourceId)| (face, e.1),
            )
        } else {
            Seq::empty()
        },
    decreases n,
{
    let keep = |e: (FaceId, ResourceId)| e.0 == face;
    if n == 0 {
        lemma_filter_none(known_tokens_upto(t, routers, n), keep);
    } else {
        lemma_known_of_a_face(t, routers, face, n - 1);
        let before = known_tokens_upto(t, routers, n - 1);
        let f = t.faces[n - 1];
        if f.listed && (routers || f.whatami != WhatAmI::Router) {
            let k = (n - 1) as FaceId;
            let now = f.remote_tokens.map_values(
                |e: (TokenId, ResourceId)| ((n - 1) as FaceId, e.1),
            );
            Seq::filter_distributes_over_add(before, now, keep);
            assert forall|i: int| 0 <= i < now.len() implies keep(#[trigger] now[i]) == (k == face)
                by {}
            if k == face {
                lemma_filter_all(now, keep);
                assert(now =~= f.remote_tokens.map_values(
                    |e: (TokenId, ResourceId)| (face, e.1),
                ));
                assert(Seq::<(FaceId, ResourceId)>::empty() + now =~= now);
            } else {
                lemma_filter_none(now, keep);
                assert(before.filter(keep) + Seq::<(FaceId, ResourceId)>::empty()
                    =~= before.filter(keep));
            }
        }
    }
}

/// A face other than a client that has just connected is told of the token of a client if it
/// does not have it and no other client declared it.
pub proof fn law_new_face_hears_of_clients(
    t: TablesView,
    face: FaceId,
    src: FaceId,
    res: ResourceId,
)
    requires
        t.wf(),
        t.has_face(face),
        role(t, face) != WhatAmI::Client,
        t.has_face(src),
        t.faces[src as int].listed,
        role(t, src) == WhatAmI::Client,
        holds(t.faces[src as int], res),
        !told(t.faces[face as int], res),
        forall|f: FaceId| #[trigger]
            marked(t, res, f) && role(t, f) == WhatAmI::Client ==> f == src,
    ensures
        ({
            let step = new_face(t, face);
            exists|num: TokenId| #[trigger]
                step.tables.faces[face as int].local_tokens.contains((res, num))
                    && step.sent.contains(
                    declaration(face, num, res, Some(INITIAL_INTEREST_ID)),
                )
        }),
{
    lemma_known(t, true);
    assert(known_tokens(t, true).contains((src, res)));
    assert(t.face_wf(t.faces[face as int]));
    lemma_told(t.faces[face as int], res);
    law_new_token(t, res, src, face);
    assert(should_offer(t, face, res, src));
    law_new_face_reaches(t, face, src, res);
    law_new_face_gains_what_it_is_owed(t, face);
    law_new_face_frame(t, face);
    lemma_new_face_unique(t, face);
    let g = new_face(t, face).tables.faces[face as int];
    lemma_told(g, res);
    assert(has_key(g.local_tokens, res) && !has_key(t.faces[face as int].local_tokens, res));
    assert(g.local_tokens.contains((res, lookup(g.local_tokens, res)->0)));
}

proof fn lemma_new_face_unique(t: TablesView, face: FaceId)
    requires
        t.wf(),
        t.has_face(face),
    ensures
        unique_keys(new_face(t, face).tables.faces[face as int].local_tokens),
{
    assert(t.face_wf(t.faces[face as int]));
    if !t.is_client(face) {
        let tokens = known_tokens(t, true);
        law_known_tokens(t, true, t.faces.len() as int);
        assert forall|i: int| 0 <= i < tokens.len() implies t.has_face((#[trigger] tokens[i]).0)
            && t.has_resource(tokens[i].1) by {
            let (f, r) = tokens[i];
            assert(f < t.faces.len());
        }
        lemma_offer_all_owed(t, face, tokens);
    }
}

/// Offering tokens one after the other takes numbers one after the other.
proof fn lemma_offer_all_numbers(t: TablesView, dst: FaceId, tokens: Seq<(FaceId, ResourceId)>)
    requires
        t.wf(),
        t.has_face(dst),
        role(t, dst) != WhatAmI::Client,
        forall|i: int|
            0 <= i < tokens.len() ==> t.has_face((#[trigger] tokens[i]).0) && t.has_resource(
                tokens[i].1,
            ),
    ensures
        ({
            let f = t.faces[dst as int];
            let step = offer_all(t, dst, tokens);
            &&& forall|i: int|
                #![trigger step.sent[i]]
                0 <= i < step.sent.len() ==> step.sent[i] == declaration(
                    dst,
                    ((f.next_id + i) % 0x1_0000_0000) as u32,
                    step.sent[i].res,
                    Some(INITIAL_INTEREST_ID),
                )
            &&& step.face.next_id == (f.next_id + step.sent.len()) % 0x1_0000_0000
        }),
    decreases tokens.len(),
{
    if tokens.len() > 0 {
        let f = t.faces[dst as int];
        let rest = tokens.drop_last();
        assert forall|i: int| 0 <= i < rest.len() implies t.has_face((#[trigger] rest[i]).0)
            && t.has_resource(rest[i].1) by {
            assert(rest[i] == tokens[i]);
        }
        lemma_offer_all_numbers(t, dst, rest);
        lemma_offer_all_owed(t, dst, rest);
        lemma_offer_all_frame(t, dst, rest);
        let before = offer_all(t, dst, rest);
        let u = t.with_face(dst, before.face);
        let (src, res) = tokens.last();
        assert(u.faces[dst as int] == before.face);
        let targets = offer_targets(u, dst, res, None);
        lemma_announce_only(dst, before.face, targets, Some(INITIAL_INTEREST_ID));
        let now = offer(u, dst, res, src, None, Some(INITIAL_INTEREST_ID));
        let step = offer_all(t, dst, tokens);
        assert(step.sent == before.sent + now.sent);
        assert forall|i: int|
            #![trigger step.sent[i]]
            0 <= i < step.sent.len() implies step.sent[i] == declaration(
            dst,
            ((f.next_id + i) % 0x1_0000_0000) as u32,
            step.sent[i].res,
            Some(INITIAL_INTEREST_ID),
        ) by {
            if i < before.sent.len() {
                assert(step.sent[i] == before.sent[i]);
            } else {
                assert(step.sent[i] == now.sent[i - before.sent.len()]);
            }
        }
    }
}

/// What a face that has just connected is told is due: it is no client, and each token is one
/// that it did not have, that a listed client other than it holds, and that no other client
/// declared. It is told of each once, under numbers taken one after the other. What it had it
/// keeps, what it gains it is told of, and nothing else changes.
pub proof fn law_new_face_is_due(t: TablesView, face: FaceId)
    requires
        t.wf(),
        t.has_face(face),
    ensures
        ({
            let before = t.faces[face as int];
            let step = new_face(t, face);
            let after = step.tables.faces[face as int];
            &&& step.sent.len() > 0 ==> role(t, face) != WhatAmI::Client
            &&& forall|i: int|
                #![trigger step.sent[i]]
                0 <= i < step.sent.len() ==> {
                    let m = step.sent[i];
                    &&& !told(before, m.res)
                    &&& m == declaration(
                        face,
                        ((before.next_id + i) % 0x1_0000_0000) as u32,
                        m.res,
                        Some(INITIAL_INTEREST_ID),
                    )
                    &&& exists|src: FaceId|
                        {
                            &&& t.has_face(src)
                            &&& t.faces[src as int].listed
                            &&& #[trigger] role(t, src) == WhatAmI::Client
                            &&& holds(t.faces[src as int], m.res)
                            &&& forall|f: FaceId| #[trigger]
                                marked(t, m.res, f) && role(t, f) == WhatAmI::Client ==> f == src
                        }
                }
            &&& forall|i: int, j: int|
                #![trigger step.sent[i], step.sent[j]]
                0 <= i < j < step.sent.len() ==> step.sent[i].res != step.sent[j].res
            &&& forall|r: ResourceId, num: TokenId| #[trigger]
                after.local_tokens.contains((r, num)) <==> before.local_tokens.contains((r, num))
                    || step.sent.contains(declaration(face, num, r, Some(INITIAL_INTEREST_ID)))
            &&& after.next_id == (before.next_id + step.sent.len()) % 0x1_0000_0000
            &&& after == (FaceView {
                local_tokens: after.local_tokens,
                next_id: after.next_id,
                ..before
            })
            &&& step.tables == (TablesView {
                faces: t.faces.update(face as int, after),
                ..t
            })
        }),
{
    let before = t.faces[face as int];
    let step = new_face(t, face);
    let after = step.tables.faces[face as int];
    let iid = Some(INITIAL_INTEREST_ID);
    assert(t.face_wf(before));
    law_new_face_gains_what_it_is_owed(t, face);
    law_new_face_frame(t, face);
    lemma_new_face_unique(t, face);
    assert(only_local_tokens(before, after));
    if t.is_client(face) {
        assert(t.faces.update(face as int, after) =~= t.faces);
    } else {
        let tokens = known_tokens(t, true);
        law_known_tokens(t, true, t.faces.len() as int);
        assert forall|i: int| 0 <= i < tokens.len() implies t.has_face((#[trigger] tokens[i]).0)
            && t.has_resource(tokens[i].1) by {
            let (f, r) = tokens[i];
            assert(f < t.faces.len());
        }
        lemma_offer_all_numbers(t, face, tokens);
        assert(step.tables.faces =~= t.faces.update(face as int, after));
    }
    assert forall|i: int|
        #![trigger step.sent[i]]
        0 <= i < step.sent.len() implies !told(before, step.sent[i].res) && exists|src: FaceId|
        {
            &&& t.has_face(src)
            &&& t.faces[src as int].listed
            &&& #[trigger] role(t, src) == WhatAmI::Client
            &&& holds(t.faces[src as int], step.sent[i].res)
            &&& forall|f: FaceId| #[trigger]
                marked(t, step.sent[i].res, f) && role(t, f) == WhatAmI::Client ==> f == src
        } by {
        let r = step.sent[i].res;
        lemma_told(before, r);
        lemma_told(after, r);
        assert(has_key(after.local_tokens, r)) by {
            law_lookup(after.local_tokens, r);
        }
        let tokens = known_tokens(t, true);
        let src = choose|src: FaceId| #[trigger]
            tokens.contains((src, r)) && should_offer(t, face, r, src);
        lemma_known(t, true);
        assert(tokens.contains((src, r)));
        law_new_token(t, r, src, face);
        assert(role(t, src) == WhatAmI::Client);
    }
    assert forall|r: ResourceId, num: TokenId| #[trigger]
        after.local_tokens.contains((r, num)) <==> before.local_tokens.contains((r, num))
        || step.sent.contains(declaration(face, num, r, iid)) by {
        lemma_told(before, r);
        lemma_told(after, r);
        if before.local_tokens.contains((r, num)) {
            assert(told(before, r));
            assert(lookup(after.local_tokens, r) == lookup(before.local_tokens, r));
        }
        if after.local_tokens.contains((r, num)) {
            assert(told(after, r));
            assert(lookup(after.local_tokens, r) == Some(num));
            if told(before, r) {
                assert(lookup(after.local_tokens, r) == lookup(before.local_tokens, r));
            }
        }
        if step.sent.contains(declaration(face, num, r, iid)) {
            let i = choose|i: int|
                0 <= i < step.sent.len() && step.sent[i] == declaration(face, num, r, iid);
            assert(step.sent[i].res == r);
        }
    }
}

/// An interest in the present tokens on `r` that is no aggregate is answered on exactly those
/// resources that have it among their matches and on which some listed face that is no router
/// holds a token. An interest in everything is answered on every resource on which such a face
/// holds one. An aggregate on `r` is answered on `r` alone, and exactly if some listed face, a
/// router or not, holds a token on a resource that has `r` among its matches.
pub proof fn law_interest_answers(t: TablesView, r: ResourceId)
    requires
        t.wf(),
    ensures
        forall|m: ResourceId| #[trigger]
            interest_answers(t, Some(r), false).contains(m) <==> meets(t, m, r) && exists|f: FaceId|
                t.has_face(f) && t.faces[f as int].listed && #[trigger] role(t, f)
                    != WhatAmI::Router && holds(t.faces[f as int], m),
        forall|aggregate: bool, m: ResourceId| #[trigger]
            interest_answers(t, None, aggregate).contains(m) <==> exists|f: FaceId|
                t.has_face(f) && t.faces[f as int].listed && #[trigger] role(t, f)
                    != WhatAmI::Router && holds(t.faces[f as int], m),
        interest_answers(t, Some(r), true) == if exists|f: FaceId, m: ResourceId|
            t.has_face(f) && t.faces[f as int].listed && #[trigger] holds(t.faces[f as int], m)
                && meets(t, m, r) {
            seq![r]
        } else {
            Seq::empty()
        },
{
    lemma_known(t, false);
    lemma_known(t, true);
    let tokens = known_tokens(t, false);
    let keep = |e: (FaceId, ResourceId)| t.matches(e.1, r);
    let name = |e: (FaceId, ResourceId)| e.1;
    lemma_filter_contents(tokens, keep);
    assert forall|m: ResourceId| #[trigger]
        interest_answers(t, Some(r), false).contains(m) <==> meets(t, m, r) && exists|f: FaceId|
            t.has_face(f) && t.faces[f as int].listed && #[trigger] role(t, f) != WhatAmI::Router
                && holds(t.faces[f as int], m) by {
        let kept = tokens.filter(keep);
        let answers = interest_answers(t, Some(r), false);
        assert(answers == kept.map_values(name));
        if answers.contains(m) {
            let i = choose|i: int| 0 <= i < answers.len() && answers[i] == m;
            let f = kept[i].0;
            assert(kept[i] == (f, m));
            assert(kept.contains((f, m)));
            assert(tokens.contains((f, m)));
            assert(role(t, f) != WhatAmI::Router);
        }
        if meets(t, m, r) && exists|f: FaceId|
            t.has_face(f) && t.faces[f as int].listed && #[trigger] role(t, f) != WhatAmI::Router
                && holds(t.faces[f as int], m) {
            let f = choose|f: FaceId|
                t.has_face(f) && t.faces[f as int].listed && #[trigger] role(t, f)
                    != WhatAmI::Router && holds(t.faces[f as int], m);
            assert(tokens.contains((f, m)));
            assert(keep((f, m)));
            assert(kept.contains((f, m)));
            let i = choose|i: int| 0 <= i < kept.len() && kept[i] == (f, m);
            assert(answers[i] == m);
        }
    }
    assert forall|aggregate: bool, m: ResourceId| #[trigger]
        interest_answers(t, None, aggregate).contains(m) <==> exists|f: FaceId|
            t.has_face(f) && t.faces[f as int].listed && #[trigger] role(t, f) != WhatAmI::Router
                && holds(t.faces[f as int], m) by {
        let answers = interest_answers(t, None, aggregate);
        assert(answers == tokens.map_values(name));
        if answers.contains(m) {
            let i = choose|i: int| 0 <= i < answers.len() && answers[i] == m;
            let f = tokens[i].0;
            assert(tokens[i] == (f, m));
            assert(tokens.contains((f, m)));
            assert(role(t, f) != WhatAmI::Router);
        }
        if exists|f: FaceId|
            t.has_face(f) && t.faces[f as int].listed && #[trigger] role(t, f) != WhatAmI::Router
                && holds(t.faces[f as int], m) {
            let f = choose|f: FaceId|
                t.has_face(f) && t.faces[f as int].listed && #[trigger] role(t, f)
                    != WhatAmI::Router && holds(t.faces[f as int], m);
            assert(tokens.contains((f, m)));
            let i = choose|i: int| 0 <= i < tokens.len() && tokens[i] == (f, m);
            assert(answers[i] == m);
        }
    }
    if is_present(t, r) {
        let (f, m) = choose|f: FaceId, m: ResourceId| #[trigger]
            known_tokens(t, true).contains((f, m)) && t.matches(m, r);
        assert(holds(t.faces[f as int], m) && meets(t, m, r));
    }
    if exists|f: FaceId, m: ResourceId|
        t.has_face(f) && t.faces[f as int].listed && #[trigger] holds(t.faces[f as int], m)
            && meets(t, m, r) {
        let (f, m) = choose|f: FaceId, m: ResourceId|
            t.has_face(f) && t.faces[f as int].listed && #[trigger] holds(t.faces[f as int], m)
                && meets(t, m, r);
        assert(known_tokens(t, true).contains((f, m)));
        assert(t.matches(m, r));
    }
}

/// An interest names a token as often as it is held: the answers follow the known tokens one for
/// one, those that do not match left out.
pub proof fn law_interest_answers_each_token(t: TablesView, r: ResourceId, aggregate: bool)
    ensures
        interest_answers(t, None, aggregate) == known_tokens(t, false).map_values(
            |e: (FaceId, ResourceId)| e.1,
        ),
        interest_answers(t, Some(r), false) == known_tokens(t, false).filter(
            |e: (FaceId, ResourceId)| meets(t, e.1, r),
        ).map_values(|e: (FaceId, ResourceId)| e.1),
{
    assert((|e: (FaceId, ResourceId)| meets(t, e.1, r)) =~= (|e: (FaceId, ResourceId)|
        t.matches(e.1, r)));
}

/// Reporting tokens sends one declaration for each, with the number that the face keeps for it
/// where tokens to come are asked for and with none otherwise.
proof fn lemma_report_only(
    face: FaceId,
    f: FaceView,
    targets: Seq<ResourceId>,
    mode: InterestMode,
    interest_id: InterestId,
)
    requires
        unique_keys(f.local_tokens),
    ensures
        ({
            let step = report(face, f, targets, mode, interest_id);
            let g = step.face;
            let keeps = mode == InterestMode::Future || mode == InterestMode::CurrentFuture;
            &&& unique_keys(g.local_tokens)
            &&& step.sent.len() == targets.len()
            &&& forall|i: int|
                #![trigger step.sent[i]]
                0 <= i < targets.len() ==> step.sent[i] == declaration(
                    face,
                    if keeps {
                        lookup(g.local_tokens, targets[i])->0
                    } else {
                        0
                    },
                    targets[i],
                    Some(interest_id),
                )
            &&& forall|r: ResourceId| #[trigger]
                has_key(g.local_tokens, r) <==> has_key(f.local_tokens, r) || (keeps
                    && targets.contains(r))
            &&& forall|r: ResourceId|
                has_key(f.local_tokens, r) ==> #[trigger] lookup(g.local_tokens, r) == lookup(
                    f.local_tokens,
                    r,
                )
            &&& g == (FaceView { local_tokens: g.local_tokens, next_id: g.next_id, ..f })
            &&& g.local_tokens.len() >= f.local_tokens.len()
            &&& g.next_id == (f.next_id + g.local_tokens.len() - f.local_tokens.len())
                % 0x1_0000_0000
        }),
    decreases targets.len(),
{
    if targets.len() > 0 {
        let rest = targets.drop_last();
        let res = targets.last();
        lemma_report_only(face, f, rest, mode, interest_id);
        let b = report(face, f, rest, mode, interest_id);
        let step = report(face, f, targets, mode, interest_id);
        let g = step.face;
        let keeps = mode == InterestMode::Future || mode == InterestMode::CurrentFuture;
        lemma_put(b.face.local_tokens, res, b.face.next_id);
        assert forall|r: ResourceId| #[trigger]
            targets.contains(r) <==> rest.contains(r) || r == res by {
            if rest.contains(r) {
                let i = choose|i: int| 0 <= i < rest.len() && rest[i] == r;
                assert(targets[i] == r);
            }
            assert(targets[targets.len() - 1] == res);
            if targets.contains(r) && r != res {
                let i = choose|i: int| 0 <= i < targets.len() && targets[i] == r;
                assert(rest[i] == r);
            }
        }
        assert forall|r: ResourceId| has_key(b.face.local_tokens, r) implies #[trigger] lookup(
            g.local_tokens,
            r,
        ) == lookup(b.face.local_tokens, r) by {}
        assert forall|r: ResourceId| #[trigger]
            has_key(g.local_tokens, r) <==> has_key(b.face.local_tokens, r) || (keeps && r == res)
            by {
            if r != res {
                assert(lookup(g.local_tokens, r) == lookup(b.face.local_tokens, r));
            }
        }
        assert forall|i: int|
            #![trigger step.sent[i]]
            0 <= i < targets.len() implies step.sent[i] == declaration(
            face,
            if keeps {
                lookup(g.local_tokens, targets[i])->0
            } else {
                0
            },
            targets[i],
            Some(interest_id),
        ) by {
            if i < rest.len() {
                assert(step.sent[i] == b.sent[i]);
                assert(rest[i] == targets[i]);
                assert(rest.contains(rest[i]));
            }
        }
    }
}

/// An interest that asks for present tokens is sent one declaration for each resource that it is
/// answered on, in answer to it. Where it asks for tokens to come as well each carries the number
/// that the face keeps for it from then on, one that it had before staying the same; else it
/// carries none and the face keeps nothing. An interest that does not ask for present tokens is
/// sent nothing and changes nothing.
pub proof fn law_interest_is_answered(
    t: TablesView,
    face: FaceId,
    id: InterestId,
    res: Option<ResourceId>,
    mode: InterestMode,
    aggregate: bool,
)
    requires
        t.wf(),
        t.has_face(face),
    ensures
        ({
            let before = t.faces[face as int];
            let step = interest_declared(t, face, id, res, mode, aggregate);
            let after = step.tables.faces[face as int];
            let answers = interest_answers(t, res, aggregate);
            &&& mode == InterestMode::Final || mode == InterestMode::Future ==> step.tables == t
                && step.sent.len() == 0
            &&& mode == InterestMode::Current ==> step.tables == t
            &&& mode == InterestMode::Current || mode == InterestMode::CurrentFuture ==> {
                &&& step.sent.len() == answers.len()
                &&& forall|i: int|
                    #![trigger step.sent[i]]
                    0 <= i < answers.len() ==> if mode == InterestMode::Current {
                        step.sent[i] == declaration(face, 0, answers[i], Some(id))
                    } else {
                        exists|num: TokenId| #[trigger]
                            after.local_tokens.contains((answers[i], num)) && step.sent[i]
                                == declaration(face, num, answers[i], Some(id))
                    }
            }
            &&& mode == InterestMode::CurrentFuture ==> {
                &&& forall|r: ResourceId, num: TokenId| #[trigger]
                    before.local_tokens.contains((r, num)) ==> after.local_tokens.contains((r, num))
                &&& forall|r: ResourceId| #[trigger]
                    told(after, r) <==> told(before, r) || answers.contains(r)
                &&& after.next_id == (before.next_id + after.local_tokens.len()
                    - before.local_tokens.len()) % 0x1_0000_0000
            }
            &&& after == (FaceView {
                local_tokens: after.local_tokens,
                next_id: after.next_id,
                ..before
            })
            &&& step.tables == (TablesView { faces: t.faces.update(face as int, after), ..t })
        }),
{
    let before = t.faces[face as int];
    let step = interest_declared(t, face, id, res, mode, aggregate);
    let after = step.tables.faces[face as int];
    let answers = interest_answers(t, res, aggregate);
    assert(t.face_wf(before));
    assert(t.faces.update(face as int, before) =~= t.faces);
    assert(step.tables.faces =~= t.faces.update(face as int, after));
    assert(step.tables =~= (TablesView { faces: t.faces.update(face as int, after), ..t }));
    lemma_report_only(face, before, answers, mode, id);
    if !mode.wants_current() {
        assert(step.tables == t && step.sent.len() == 0);
        assert(after == before);
    }
    if !mode.wants_future() {
        law_interest_without_future(t, face, id, res, mode, aggregate);
    }
    if mode.wants_current() {
        assert forall|i: int|
            #![trigger step.sent[i]]
            0 <= i < answers.len() implies if mode == InterestMode::Current {
            step.sent[i] == declaration(face, 0, answers[i], Some(id))
        } else {
            exists|num: TokenId| #[trigger]
                after.local_tokens.contains((answers[i], num)) && step.sent[i] == declaration(
                    face,
                    num,
                    answers[i],
                    Some(id),
                )
        } by {
            assert(answers.contains(answers[i]));
            if mode == InterestMode::CurrentFuture {
                assert(has_key(after.local_tokens, answers[i]));
                law_lookup(after.local_tokens, answers[i]);
                let num = lookup(after.local_tokens, answers[i])->0;
                assert(after.local_tokens.contains((answers[i], num)));
            }
        }
    }
    if mode == InterestMode::CurrentFuture {
        assert forall|r: ResourceId, num: TokenId| #[trigger]
            before.local_tokens.contains((r, num)) implies after.local_tokens.contains((r, num)) by {
            lemma_told(before, r);
            lemma_told(after, r);
            assert(told(before, r));
            assert(lookup(after.local_tokens, r) == lookup(before.local_tokens, r));
        }
        assert forall|r: ResourceId| #[trigger] told(after, r) <==> told(before, r)
            || answers.contains(r) by {
            lemma_told(before, r);
            lemma_told(after, r);
        }
    }
}

/// Every token that the face has been told of, the one on `res` excepted, is on a resource with
/// matches.
pub open spec fn told_with_matches(t: TablesView, f: FaceView, res: ResourceId) -> bool {
    forall|r: ResourceId, num: TokenId| #[trigger]
        f.local_tokens.contains((r, num)) ==> r == res || t.resources[r as int].context is Some
}

/// Being told with matches is what is looked at when a token ends on a face.
proof fn lemma_told_with_matches(t: TablesView, face: FaceId, res: ResourceId)
    ensures
        t.local_tokens_matched_but(face, res) <==> told_with_matches(t, t.faces[face as int], res),
{
    let s = t.faces[face as int].local_tokens;
    if t.local_tokens_matched_but(face, res) {
        assert forall|r: ResourceId, num: TokenId| #[trigger] s.contains((r, num)) implies r == res
            || t.resources[r as int].context is Some by {
            let i = choose|i: int| 0 <= i < s.len() && s[i] == (r, num);
            assert(s[i].0 == res || t.has_context(s[i].0));
        }
    }
    if told_with_matches(t, t.faces[face as int], res) {
        assert forall|i: int| 0 <= i < s.len() implies (#[trigger] s[i]).0 == res || t.has_context(
            s[i].0,
        ) by {
            assert(s[i] == (s[i].0, s[i].1));
            assert(s.contains((s[i].0, s[i].1)));
        }
    }
}

/// Where `face` gives its token on `gone` up for good, it ends on `other`: `other` is listed and
/// no other face is marked, or `other` is the one other face that is marked and no client.
pub open spec fn ends_there(t: TablesView, face: FaceId, gone: ResourceId, other: FaceId) -> bool {
    ||| t.faces[other as int].listed && forall|g: FaceId| #[trigger]
        marked(t, gone, g) ==> g == face
    ||| marked(t, gone, other) && other != face && role(t, other) != WhatAmI::Client && forall|
        g: FaceId,
    | #[trigger]
        marked(t, gone, g) ==> g == face || g == other
}

/// A token can be given up exactly if, on every face on which it ends then, each other token that
/// the face was told of is on a resource with matches. It ends on the listed faces where its face
/// does not hold it under another number and no other face is marked, and on the one other face
/// that is marked where that is no client.
pub proof fn law_can_forget(
    t: TablesView,
    face: FaceId,
    id: TokenId,
    res: Option<ResourceId>,
    gone: ResourceId,
)
    requires
        t.wf(),
        t.has_face(face),
        res matches Some(r) ==> t.has_resource(r),
        names(t.faces[face as int], id, res, gone),
    ensures
        can_forget(t, face, id, res) <==> (exists|k: TokenId|
            k != id && #[trigger] t.faces[face as int].remote_tokens.contains((k, gone)))
            || forall|other: FaceId|
            t.has_face(other) && ends_there(t, face, gone, other) ==> #[trigger] told_with_matches(
                t,
                t.faces[other as int],
                gone,
            ),
{
    let f = t.faces[face as int];
    let s = f.remote_tokens;
    let h = f.without_remote_token(id);
    let v = t.with_face(face, h);
    let w = unmarked(v, gone, face);
    assert(t.face_wf(f));
    law_forgotten_resource(t, face, id, res);
    law_removed(s, id);
    if s.contains((id, gone)) {
        let i = choose|i: int| 0 <= i < s.len() && s[i] == (id, gone);
        assert(t.has_resource(s[i].1));
    }
    lemma_without_remote_token_wf(t, f, id);
    lemma_with_face_wf(t, face, h);
    lemma_unmarked(v, gone, face);
    lemma_left(w, gone);
    lemma_holds_raw(h, gone);
    assert(v.faces[face as int] == h);
    let another = exists|k: TokenId| k != id && #[trigger] s.contains((k, gone));
    if holds(h, gone) {
        let k = choose|k: TokenId| #[trigger] h.remote_tokens.contains((k, gone));
        assert(s.contains((k, gone)) && k != id);
    }
    if another {
        let k = choose|k: TokenId| k != id && #[trigger] s.contains((k, gone));
        assert(h.remote_tokens.contains((k, gone)));
    }
    assert(another == h.holds_remote_token(gone));
    assert forall|g: FaceId| #[trigger] marked(w, gone, g) <==> marked(t, gone, g) && g != face by {
        assert(marked(v, gone, g) == marked(t, gone, g));
    }
    lemma_marked(t, gone);
    assert forall|o: FaceId| t.has_face(o) implies #[trigger] w.local_tokens_matched_but(o, gone)
        == told_with_matches(t, t.faces[o as int], gone) by {
        lemma_told_with_matches(w, o, gone);
        let tokens = t.faces[o as int].local_tokens;
        assert(w.faces[o as int].local_tokens == tokens);
        assert(t.face_wf(t.faces[o as int]));
        assert forall|r: ResourceId, num: TokenId| #[trigger] tokens.contains((r, num)) implies
            w.resources[r as int].context == t.resources[r as int].context by {
            let i = choose|i: int| 0 <= i < tokens.len() && tokens[i] == (r, num);
            assert(t.has_resource(tokens[i].0));
        }
    }
    let left = token_faces(w.resources[gone as int].session_ctxs);
    let right = forall|other: FaceId|
        t.has_face(other) && ends_there(t, face, gone, other) ==> #[trigger] told_with_matches(
            t,
            t.faces[other as int],
            gone,
        );
    if !another {
        assert(can_forget(t, face, id, res) == can_undeclare(v, face, gone));
        if left.len() == 0 {
            assert(forall|g: FaceId| #[trigger] marked(t, gone, g) ==> g == face) by {
                assert forall|g: FaceId| #[trigger] marked(t, gone, g) implies g == face by {
                    assert(!marked(w, gone, g));
                }
            }
            if can_propagate_forget(w, gone) {
                assert forall|o: FaceId| t.has_face(o) && t.faces[o as int].listed implies
                    #[trigger] told_with_matches(t, t.faces[o as int], gone) by {
                    assert(w.local_tokens_matched_but(o, gone));
                }
                assert(right);
            }
            if right {
                assert forall|o: FaceId| w.has_face(o) && w.faces[o as int].listed implies
                    #[trigger] w.local_tokens_matched_but(o, gone) by {
                    assert(told_with_matches(t, t.faces[o as int], gone));
                }
            }
        } else if left.len() == 1 {
            let l = left[0];
            assert(marked(w, gone, l));
            assert(marked(t, gone, l) && l != face);
            assert(t.has_face(l));
            assert forall|g: FaceId| #[trigger] marked(t, gone, g) implies g == face || g == l by {
                assert(g != face ==> marked(w, gone, g));
            }
            if right && role(t, l) != WhatAmI::Client {
                assert(told_with_matches(t, t.faces[l as int], gone));
            }
            if can_undeclare(v, face, gone) {
                assert forall|o: FaceId|
                    t.has_face(o) && ends_there(t, face, gone, o) implies
                    #[trigger] told_with_matches(t, t.faces[o as int], gone) by {
                    assert(o == l);
                    assert(w.local_tokens_matched_but(l, gone));
                }
            }
        } else {
            assert(can_undeclare(v, face, gone));
            assert forall|o: FaceId|
                t.has_face(o) && ends_there(t, face, gone, o) implies #[trigger] told_with_matches(
                t,
                t.faces[o as int],
                gone,
            ) by {
                let g = choose|g: FaceId| #[trigger] marked(w, gone, g);
                assert(marked(t, gone, g) && g != face);
                if marked(t, gone, o) && o != face {
                    assert(marked(w, gone, o));
                    assert forall|g: FaceId| #[trigger] marked(w, gone, g) implies g == o by {
                        assert(marked(t, gone, g));
                    }
                }
            }
        }
    }
}

/// Where nothing is named nothing has to be looked through.
pub proof fn law_can_forget_nothing(t: TablesView, face: FaceId, id: TokenId)
    requires
        t.wf(),
        t.has_face(face),
        forall|r: ResourceId| !(#[trigger] t.faces[face as int].remote_tokens.contains((id, r))),
    ensures
        can_forget(t, face, id, None),
{
    law_forgotten_resource(t, face, id, None);
}

} // verus!
