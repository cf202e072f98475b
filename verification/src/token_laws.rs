//! What holds of the token rules as a whole.

use vstd::prelude::*;

use crate::declare::{DeclareBody, RoutedDeclare, WireExpr};
use crate::dict::{
    has_key, key_pos, lemma_key_pos, lemma_lookup_at, lemma_put, lemma_removed, lookup, put,
    removed, unique_keys,
};
use crate::seqs::lemma_filter_all;
use crate::tables::{
    lemma_with_ctx_wf, lemma_with_face_wf, lemma_with_remote_token_wf,
    lemma_without_remote_token_wf, lemma_without_token_wf, FaceId, FaceView, InterestId,
    InterestMode, RemoteInterest, ResourceId, SessionContext, TablesView, TokenId, WhatAmI,
    INITIAL_INTEREST_ID,
};
use crate::token::{
    announce, can_forget, declare_outcome, declared, forget_on, forgotten, forgotten_resource,
    id_for, interest_answers, interest_declared, interest_wants, is_backed, known_tokens,
    known_tokens_upto, lemma_announce_wf, lemma_backed_frame, lemma_filter_unique,
    lemma_new_token_frame, lemma_offer_targets, lemma_purge_wf, lemma_removed_subset,
    lemma_targets_frame, lemma_unmarked_token_faces, new_face, offer, offer_all, offer_targets,
    propagate, propagate_forget, registered, report, retract, sent_upto, should_offer, token_faces,
    undeclared, unmarked, with_id_for, DeclareOutcome, FaceStep,
};

verus! {

/// Declaring tokens on a face keeps what was declared there before, leaves every target
/// declared, and adds nothing else.
pub proof fn lemma_announce(
    face: FaceId,
    f: FaceView,
    targets: Seq<ResourceId>,
    interest_id: Option<InterestId>,
)
    requires
        unique_keys(f.local_tokens),
    ensures
        ({
            let g = announce(face, f, targets, interest_id).face;
            &&& unique_keys(g.local_tokens)
            &&& forall|r: ResourceId| #[trigger]
                has_key(g.local_tokens, r) <==> has_key(f.local_tokens, r) || targets.contains(r)
            &&& forall|r: ResourceId|
                has_key(f.local_tokens, r) ==> #[trigger] lookup(g.local_tokens, r) == lookup(
                    f.local_tokens,
                    r,
                )
        }),
    decreases targets.len(),
{
    if targets.len() > 0 {
        let rest = targets.drop_last();
        let res = targets.last();
        lemma_announce(face, f, rest, interest_id);
        let b = announce(face, f, rest, interest_id).face;
        let g = announce(face, f, targets, interest_id).face;
        assert forall|r: ResourceId| #[trigger]
            targets.contains(r) <==> rest.contains(r) || r == res by {
            if rest.contains(r) {
                let i = choose|i: int| 0 <= i < rest.len() && rest[i] == r;
                assert(targets[i] == r);
            }
            assert(targets[targets.len() - 1] == res);
            if targets.contains(r) && r != res {
                let i = choose|i: int| 0 <= i < targets.len() && targets[i] == r;
                assert(rest[i] == r);
            }
        }
        if !has_key(b.local_tokens, res) {
            lemma_put(b.local_tokens, res, b.next_id);
            assert forall|r: ResourceId| #[trigger]
                has_key(g.local_tokens, r) <==> has_key(b.local_tokens, r) || r == res by {
                if r != res {
                    assert(lookup(g.local_tokens, r) == lookup(b.local_tokens, r));
                }
            }
        }
    }
}

/// Declaring tokens that are all declared already changes nothing and sends nothing.
proof fn lemma_announce_again(
    face: FaceId,
    f: FaceView,
    targets: Seq<ResourceId>,
    interest_id: Option<InterestId>,
)
    requires
        forall|i: int|
            0 <= i < targets.len() ==> has_key(f.local_tokens, #[trigger] targets[i]),
    ensures
        announce(face, f, targets, interest_id) == (FaceStep { face: f, sent: Seq::empty() }),
    decreases targets.len(),
{
    if targets.len() > 0 {
        let rest = targets.drop_last();
        assert forall|i: int| 0 <= i < rest.len() implies has_key(
            f.local_tokens,
            #[trigger] rest[i],
        ) by {
            assert(has_key(f.local_tokens, targets[i]));
        }
        lemma_announce_again(face, f, rest, interest_id);
        assert(has_key(f.local_tokens, targets[targets.len() - 1]));
    }
}

/// A token is offered to a face only once: a second offer changes nothing and sends nothing.
pub proof fn law_offer_once(
    t: TablesView,
    dst: FaceId,
    res: ResourceId,
    src: FaceId,
    src_interest_id: Option<InterestId>,
    dst_interest_id: Option<InterestId>,
)
    requires
        t.wf(),
        t.has_face(dst),
        t.has_face(src),
        t.has_resource(res),
    ensures
        ({
            let after = offer(t, dst, res, src, src_interest_id, dst_interest_id).face;
            offer(
                t.with_face(dst, after),
                dst,
                res,
                src,
                src_interest_id,
                dst_interest_id,
            ) == (FaceStep { face: after, sent: Seq::empty() })
        }),
{
    let f = t.faces[dst as int];
    let after = offer(t, dst, res, src, src_interest_id, dst_interest_id).face;
    let u = t.with_face(dst, after);
    assert(t.face_wf(f));
    if should_offer(t, dst, res, src) {
        let targets = offer_targets(t, dst, res, src_interest_id);
        lemma_offer_targets(t, dst, res, src_interest_id);
        lemma_announce(dst, f, targets, dst_interest_id);
        lemma_announce_wf(t, dst, f, targets, dst_interest_id);
        if should_offer(u, dst, res, src) {
            assert(offer_targets(u, dst, res, src_interest_id) == targets) by {
                lemma_targets_frame(t, u, dst, res, src_interest_id);
            }
            assert forall|i: int| 0 <= i < targets.len() implies has_key(
                after.local_tokens,
                #[trigger] targets[i],
            ) by {
                assert(targets.contains(targets[i]));
            }
            lemma_announce_again(dst, after, targets, dst_interest_id);
        }
    } else {
        assert(u.faces =~= t.faces);
    }
}

/// What is sent while tokens are declared on a face: each token once, none that was there
/// before, each under the number that the face keeps for it, all in answer to `interest_id`.
pub open spec fn announces(
    face: FaceId,
    f: FaceView,
    g: FaceView,
    sent: Seq<RoutedDeclare>,
    interest_id: Option<InterestId>,
) -> bool {
    &&& forall|i: int|
        #![trigger sent[i]]
        0 <= i < sent.len() ==> !has_key(f.local_tokens, sent[i].res) && (lookup(
            g.local_tokens,
            sent[i].res,
        ) matches Some(id) && sent[i] == RoutedDeclare::declares_token(
            face,
            id,
            sent[i].res,
            interest_id,
        ))
    &&& forall|i: int, j: int|
        #![trigger sent[i], sent[j]]
        0 <= i < j < sent.len() ==> sent[i].res != sent[j].res
}

/// Every declaration sent to a face names a token that the face did not have, no token twice,
/// and the number that the face keeps for it.
pub proof fn law_announce_sends_once(
    face: FaceId,
    f: FaceView,
    targets: Seq<ResourceId>,
    interest_id: Option<InterestId>,
)
    requires
        unique_keys(f.local_tokens),
    ensures
        ({
            let step = announce(face, f, targets, interest_id);
            announces(face, f, step.face, step.sent, interest_id)
        }),
    decreases targets.len(),
{
    if targets.len() > 0 {
        let rest = targets.drop_last();
        let res = targets.last();
        law_announce_sends_once(face, f, rest, interest_id);
        lemma_announce(face, f, rest, interest_id);
        let b = announce(face, f, rest, interest_id);
        if !has_key(b.face.local_tokens, res) {
            lemma_put(b.face.local_tokens, res, b.face.next_id);
            let g = announce(face, f, targets, interest_id);
            assert forall|i: int|
                #![trigger g.sent[i]]
                0 <= i < g.sent.len() implies !has_key(f.local_tokens, g.sent[i].res) && (lookup(
                g.face.local_tokens,
                g.sent[i].res,
            ) matches Some(id) && g.sent[i] == RoutedDeclare::declares_token(
                face,
                id,
                g.sent[i].res,
                interest_id,
            )) by {
                if i < b.sent.len() {
                    assert(g.sent[i] == b.sent[i]);
                    assert(has_key(b.face.local_tokens, b.sent[i].res));
                }
            }
            assert forall|i: int, j: int|
                #![trigger g.sent[i], g.sent[j]]
                0 <= i < j < g.sent.len() implies g.sent[i].res != g.sent[j].res by {
                assert(g.sent[i] == b.sent[i]);
                assert(has_key(b.face.local_tokens, b.sent[i].res));
                if j < b.sent.len() {
                    assert(g.sent[j] == b.sent[j]);
                }
            }
        }
    }
}

/// What holds of the messages of every step holds of all messages.
pub proof fn lemma_sent_all(
    t: TablesView,
    step: spec_fn(FaceId) -> FaceStep,
    n: int,
    q: spec_fn(RoutedDeclare) -> bool,
)
    requires
        t.wf(),
        n <= t.faces.len(),
        forall|k: FaceId, i: int|
            k < n && t.faces[k as int].listed && 0 <= i < step(k).sent.len() ==> q(
                #[trigger] step(k).sent[i],
            ),
    ensures
        forall|i: int| 0 <= i < sent_upto(t, step, n).len() ==> q(#[trigger] sent_upto(t, step, n)[i]),
    decreases n,
{
    if n > 0 {
        lemma_sent_all(t, step, n - 1, q);
        let before = sent_upto(t, step, n - 1);
        let all = sent_upto(t, step, n);
        assert forall|i: int| 0 <= i < all.len() implies q(#[trigger] all[i]) by {
            if i < before.len() {
                assert(all[i] == before[i]);
            } else {
                let k = (n - 1) as FaceId;
                assert(all[i] == step(k).sent[i - before.len()]);
            }
        }
    }
}

/// Tokens are passed on to listed faces only, never back to the face they came from unless it
/// leads to this very node, and only from a client or to a client.
pub proof fn law_propagate_recipients(
    t: TablesView,
    res: ResourceId,
    src: FaceId,
    interest_id: Option<InterestId>,
)
    requires
        t.wf(),
        t.has_face(src),
        t.has_resource(res),
    ensures
        forall|i: int|
            #![trigger propagate(t, res, src, interest_id).sent[i]]
            0 <= i < propagate(t, res, src, interest_id).sent.len() ==> {
                let m = propagate(t, res, src, interest_id).sent[i];
                &&& t.has_face(m.face)
                &&& t.faces[m.face as int].listed
                &&& m.face != src || t.is_local(m.face)
                &&& t.is_client(src) || t.is_client(m.face)
                &&& m.msg.interest_id is None
                &&& m.msg.body is DeclareToken
            },
{
    let q = |m: RoutedDeclare|
        {
            &&& t.has_face(m.face)
            &&& t.faces[m.face as int].listed
            &&& m.face != src || t.is_local(m.face)
            &&& t.is_client(src) || t.is_client(m.face)
            &&& m.msg.interest_id is None
            &&& m.msg.body is DeclareToken
        };
    let step = |dst: FaceId| offer(t, dst, res, src, interest_id, None);
    assert forall|k: FaceId, i: int|
        k < t.faces.len() && t.faces[k as int].listed && 0 <= i < step(k).sent.len() implies q(
        #[trigger] step(k).sent[i],
    ) by {
        assert(t.face_wf(t.faces[k as int]));
        law_announce_sends_once(
            k,
            t.faces[k as int],
            offer_targets(t, k, res, interest_id),
            None,
        );
    }
    lemma_sent_all(t, step, t.faces.len() as int, q);
    let sent = propagate(t, res, src, interest_id).sent;
    assert forall|i: int| 0 <= i < sent.len() implies q(#[trigger] sent[i]) by {
        assert(q(sent_upto(t, step, t.faces.len() as int)[i]));
    }
}

/// `g` differs from `f` in nothing but the tokens of this node on the face and the next number.
pub open spec fn only_local_tokens(f: FaceView, g: FaceView) -> bool {
    g == (FaceView { local_tokens: g.local_tokens, next_id: g.next_id, ..f })
}

/// `u` differs from `t` in nothing but the tokens of this node on its faces and their numbers.
pub open spec fn only_local_tokens_differ(t: TablesView, u: TablesView) -> bool {
    &&& t.zid == u.zid
    &&& t.resources == u.resources
    &&& t.faces.len() == u.faces.len()
    &&& forall|i: int|
        #![trigger u.faces[i]]
        0 <= i < t.faces.len() ==> only_local_tokens(t.faces[i], u.faces[i])
}

/// Declaring tokens on a face touches nothing else there.
proof fn lemma_announce_frame(
    face: FaceId,
    f: FaceView,
    targets: Seq<ResourceId>,
    interest_id: Option<InterestId>,
)
    ensures
        only_local_tokens(f, announce(face, f, targets, interest_id).face),
    decreases targets.len(),
{
    if targets.len() > 0 {
        lemma_announce_frame(face, f, targets.drop_last(), interest_id);
    }
}

/// Reporting tokens to a face touches nothing else there.
proof fn lemma_report_frame(
    face: FaceId,
    f: FaceView,
    targets: Seq<ResourceId>,
    mode: InterestMode,
    interest_id: InterestId,
)
    ensures
        only_local_tokens(f, report(face, f, targets, mode, interest_id).face),
    decreases targets.len(),
{
    if targets.len() > 0 {
        lemma_report_frame(face, f, targets.drop_last(), mode, interest_id);
    }
}

/// Offering tokens to a face touches nothing else there.
pub proof fn lemma_offer_all_frame(t: TablesView, dst: FaceId, tokens: Seq<(FaceId, ResourceId)>)
    requires
        t.has_face(dst),
    ensures
        only_local_tokens(t.faces[dst as int], offer_all(t, dst, tokens).face),
    decreases tokens.len(),
{
    if tokens.len() > 0 {
        let rest = tokens.drop_last();
        lemma_offer_all_frame(t, dst, rest);
        let u = t.with_face(dst, offer_all(t, dst, rest).face);
        lemma_announce_frame(
            dst,
            u.faces[dst as int],
            offer_targets(u, dst, tokens.last().1, None),
            Some(INITIAL_INTEREST_ID),
        );
    }
}

/// Passing a token on changes nothing but the tokens of this node on its faces.
pub proof fn law_propagate_frame(
    t: TablesView,
    res: ResourceId,
    src: FaceId,
    interest_id: Option<InterestId>,
)
    requires
        t.wf(),
    ensures
        only_local_tokens_differ(t, propagate(t, res, src, interest_id).tables),
{
    let u = propagate(t, res, src, interest_id).tables;
    assert forall|i: int| #![trigger u.faces[i]] 0 <= i < t.faces.len() implies only_local_tokens(
        t.faces[i],
        u.faces[i],
    ) by {
        let dst = i as FaceId;
        lemma_announce_frame(
            dst,
            t.faces[dst as int],
            offer_targets(t, dst, res, interest_id),
            None,
        );
    }
}

/// Passing on the end of a token changes nothing but the tokens of this node on its faces.
pub proof fn law_propagate_forget_frame(t: TablesView, res: ResourceId, src: FaceId)
    requires
        t.wf(),
    ensures
        only_local_tokens_differ(t, propagate_forget(t, res, src).tables),
{
    let u = propagate_forget(t, res, src).tables;
    assert forall|i: int| #![trigger u.faces[i]] 0 <= i < t.faces.len() implies only_local_tokens(
        t.faces[i],
        u.faces[i],
    ) by {}
}

/// A new face gets its tokens and nothing else changes.
pub proof fn law_new_face_frame(t: TablesView, face: FaceId)
    requires
        t.has_face(face),
    ensures
        only_local_tokens_differ(t, new_face(t, face).tables),
{
    lemma_offer_all_frame(t, face, known_tokens(t, true));
}

/// Answering an interest changes nothing but the tokens of this node on the asking face.
pub proof fn law_interest_frame(
    t: TablesView,
    face: FaceId,
    id: InterestId,
    res: Option<ResourceId>,
    mode: InterestMode,
    aggregate: bool,
)
    requires
        t.has_face(face),
    ensures
        only_local_tokens_differ(t, interest_declared(t, face, id, res, mode, aggregate).tables),
{
    lemma_report_frame(
        face,
        t.faces[face as int],
        interest_answers(t, res, aggregate),
        mode,
        id,
    );
}

/// Where the end of a token is passed on, what backs the tokens of this node stays as it was.
proof fn lemma_backed_after(t: TablesView, u: TablesView, face: FaceId)
    requires
        only_local_tokens_differ(t, u),
        t.has_face(face),
    ensures
        forall|res: ResourceId| #[trigger] is_backed(t, res, face) == is_backed(u, res, face),
{
    assert(t.same_network(u)) by {
        assert forall|i: int| 0 <= i < t.faces.len() implies (#[trigger] t.faces[i]).zid
            == u.faces[i].zid && t.faces[i].whatami == u.faces[i].whatami && t.faces[i].listed
            == u.faces[i].listed by {
            assert(only_local_tokens(t.faces[i], u.faces[i]));
        }
    }
    lemma_backed_frame(t, u, face);
}

/// What is left of a list after filtering is what the filter lets pass.
pub proof fn lemma_filter_keys<K, V>(s: Seq<(K, V)>, keep: spec_fn((K, V)) -> bool)
    requires
        unique_keys(s),
    ensures
        unique_keys(s.filter(keep)),
        forall|i: int|
            #![trigger s[i]]
            0 <= i < s.len() ==> (keep(s[i]) <==> has_key(s.filter(keep), s[i].0)),
        forall|k: K| #[trigger]
            has_key(s.filter(keep), k) ==> has_key(s, k) && keep((k, lookup(s, k)->0)) && lookup(
                s.filter(keep),
                k,
            ) == lookup(s, k),
{
    let r = s.filter(keep);
    lemma_filter_unique(s, keep);
    assert forall|k: K| #[trigger] has_key(r, k) implies has_key(s, k) && keep(
        (k, lookup(s, k)->0),
    ) && lookup(r, k) == lookup(s, k) by {
        lemma_key_pos(r, k);
        let i = key_pos(r, k);
        assert(s.contains(r[i]));
        s.lemma_filter_pred(keep, i);
        let j = choose|j: int| 0 <= j < s.len() && s[j] == r[i];
        lemma_lookup_at(s, j);
    }
    assert forall|i: int| #![trigger s[i]] 0 <= i < s.len() implies (keep(s[i]) <==> has_key(
        r,
        s[i].0,
    )) by {
        lemma_lookup_at(s, i);
        if keep(s[i]) {
            s.lemma_filter_contains(keep, i);
            let j = choose|j: int| 0 <= j < r.len() && r[j] == s[i];
            assert(r[j].0 == s[i].0);
        }
    }
}

/// Once the end of the last token on a resource was passed on, no listed face has a token of
/// this node on it, and what tokens they have are backed by tokens of others.
pub proof fn law_forget_is_complete(t: TablesView, res: ResourceId, src: FaceId, face: FaceId)
    requires
        t.wf(),
        t.has_face(face),
        t.faces[face as int].listed,
    ensures
        ({
            let u = propagate_forget(t, res, src).tables;
            let f = u.faces[face as int];
            &&& !has_key(f.local_tokens, res)
            &&& forall|r: ResourceId| #[trigger]
                has_key(f.local_tokens, r) ==> is_backed(u, r, face) && lookup(f.local_tokens, r)
                    == lookup(t.faces[face as int].local_tokens, r)
        }),
{
    let u = propagate_forget(t, res, src).tables;
    let old_tokens = t.faces[face as int].local_tokens;
    let first = retract(t, face, res, src).face;
    let keep = |e: (ResourceId, TokenId)| is_backed(t, e.0, face);
    assert(t.face_wf(t.faces[face as int]));
    lemma_removed(old_tokens, res);
    assert(first.local_tokens == removed(old_tokens, res));
    lemma_filter_keys(first.local_tokens, keep);
    let f = u.faces[face as int];
    assert(f.local_tokens == first.local_tokens.filter(keep));
    law_propagate_forget_frame(t, res, src);
    lemma_backed_after(t, u, face);
    assert forall|r: ResourceId| #[trigger] has_key(f.local_tokens, r) implies is_backed(u, r, face)
        && lookup(f.local_tokens, r) == lookup(old_tokens, r) by {
        assert(lookup(first.local_tokens, r) is Some);
        assert(r != res);
    }
    if has_key(f.local_tokens, res) {
        assert(lookup(first.local_tokens, res) is Some);
    }
}

/// An undeclaration without a key expression carries the number under which the token was
/// declared on that face, and the token is gone from there afterwards; one with a key
/// expression is about a token that was not declared there and carries a number of its own.
pub proof fn law_undeclare_numbers(t: TablesView, face: FaceId, res: ResourceId, src: FaceId)
    requires
        t.wf(),
        t.has_face(face),
    ensures
        ({
            let f = t.faces[face as int];
            let step = forget_on(t, face, res, src);
            forall|i: int|
                #![trigger step.sent[i]]
                0 <= i < step.sent.len() ==> (step.sent[i].msg.body matches DeclareBody::UndeclareToken(u)
                    && step.sent[i] == RoutedDeclare::undeclares_token(
                    face,
                    u.id,
                    step.sent[i].res,
                    u.ext_wire_expr,
                ) && (match u.ext_wire_expr {
                    WireExpr::Empty => lookup(f.local_tokens, step.sent[i].res) == Some(u.id)
                        && !has_key(step.face.local_tokens, step.sent[i].res),
                    WireExpr::Best(r) => r == res && step.sent[i].res == res && !has_key(
                        f.local_tokens,
                        res,
                    ) && u.id == f.next_id && src != face,
                    WireExpr::Declared(_) => false,
                }))
        }),
{
    let f = t.faces[face as int];
    let first = retract(t, face, res, src);
    let step = forget_on(t, face, res, src);
    let keep = |e: (ResourceId, TokenId)| is_backed(t, e.0, face);
    let gone = |e: (ResourceId, TokenId)| !is_backed(t, e.0, face);
    assert(t.face_wf(f));
    lemma_removed(f.local_tokens, res);
    let s = first.face.local_tokens;
    assert(s == removed(f.local_tokens, res));
    lemma_filter_keys(s, keep);
    lemma_filter_keys(s, gone);
    let lost = s.filter(gone);
    assert forall|i: int| #![trigger step.sent[i]] 0 <= i < step.sent.len() implies (
    step.sent[i].msg.body matches DeclareBody::UndeclareToken(u) && step.sent[i]
        == RoutedDeclare::undeclares_token(face, u.id, step.sent[i].res, u.ext_wire_expr) && (
    match u.ext_wire_expr {
        WireExpr::Empty => lookup(f.local_tokens, step.sent[i].res) == Some(u.id) && !has_key(
            step.face.local_tokens,
            step.sent[i].res,
        ),
        WireExpr::Best(r) => r == res && step.sent[i].res == res && !has_key(f.local_tokens, res)
            && u.id == f.next_id && src != face,
        WireExpr::Declared(_) => false,
    })) by {
        if i < first.sent.len() {
            assert(step.sent[i] == first.sent[i]);
            if has_key(step.face.local_tokens, res) {
                assert(lookup(s, res) is Some);
            }
        } else {
            let k = i - first.sent.len();
            let (r, id) = lost[k];
            assert(step.sent[i] == RoutedDeclare::undeclares_token(face, id, r, WireExpr::Empty));
            lemma_lookup_at(lost, k);
            assert(lookup(s, r) == Some(id));
            assert(r != res);
            assert(lookup(f.local_tokens, r) == Some(id));
            lemma_key_pos(s, r);
            assert(gone(s[key_pos(s, r)]));
            assert(!keep(s[key_pos(s, r)]));
        }
    }
}

/// No token of this node vanishes from a face without the face being told.
pub proof fn law_forget_is_told(
    t: TablesView,
    face: FaceId,
    res: ResourceId,
    src: FaceId,
    lost: ResourceId,
)
    requires
        t.wf(),
        t.has_face(face),
        has_key(t.faces[face as int].local_tokens, lost),
        !has_key(forget_on(t, face, res, src).face.local_tokens, lost),
    ensures
        forget_on(t, face, res, src).sent.contains(
            RoutedDeclare::undeclares_token(
                face,
                lookup(t.faces[face as int].local_tokens, lost)->0,
                lost,
                WireExpr::Empty,
            ),
        ),
{
    let f = t.faces[face as int];
    let first = retract(t, face, res, src);
    let step = forget_on(t, face, res, src);
    let keep = |e: (ResourceId, TokenId)| is_backed(t, e.0, face);
    let gone = |e: (ResourceId, TokenId)| !is_backed(t, e.0, face);
    let message = RoutedDeclare::undeclares_token(
        face,
        lookup(f.local_tokens, lost)->0,
        lost,
        WireExpr::Empty,
    );
    assert(t.face_wf(f));
    if lost == res {
        assert(step.sent[0] == message);
    } else {
        let s = first.face.local_tokens;
        lemma_removed(f.local_tokens, res);
        assert(s == removed(f.local_tokens, res));
        assert(lookup(s, lost) == lookup(f.local_tokens, lost));
        lemma_key_pos(s, lost);
        let p = key_pos(s, lost);
        lemma_filter_keys(s, keep);
        assert(!keep(s[p]));
        s.lemma_filter_contains(gone, p);
        let rest = s.filter(gone);
        let k = choose|k: int| 0 <= k < rest.len() && rest[k] == s[p];
        assert(step.sent[first.sent.len() + k] == message);
    }
}

/// Passing on the same end a second time changes no token of this node on any face, and sends
/// nothing but undeclarations with a key expression.
pub proof fn law_second_end_is_no_news(t: TablesView, res: ResourceId, src: FaceId)
    requires
        t.wf(),
    ensures
        ({
            let once = propagate_forget(t, res, src).tables;
            let twice = propagate_forget(once, res, src);
            &&& forall|i: int|
                0 <= i < t.faces.len() ==> (#[trigger] twice.tables.faces[i]).local_tokens
                    == once.faces[i].local_tokens
            &&& forall|i: int|
                #![trigger twice.sent[i]]
                0 <= i < twice.sent.len() ==> (
                twice.sent[i].msg.body matches DeclareBody::UndeclareToken(u)
                    && u.ext_wire_expr == WireExpr::Best(res))
        }),
{
    let u = propagate_forget(t, res, src).tables;
    let step = |face: FaceId| forget_on(u, face, res, src);
    lemma_propagate_forget_wf(t, res, src);
    law_propagate_forget_frame(t, res, src);
    assert forall|face: FaceId| u.has_face(face) && u.faces[face as int].listed implies (
    #[trigger] step(face)).face.local_tokens == u.faces[face as int].local_tokens by {
        let tokens = u.faces[face as int].local_tokens;
        let keep = |e: (ResourceId, TokenId)| is_backed(u, e.0, face);
        assert(only_local_tokens(t.faces[face as int], u.faces[face as int]));
        law_forget_is_complete(t, res, src, face);
        assert(retract(u, face, res, src).face.local_tokens == tokens);
        assert forall|i: int| 0 <= i < tokens.len() implies keep(#[trigger] tokens[i]) by {
            assert(has_key(tokens, tokens[i].0));
        }
        lemma_filter_all(tokens, keep);
    }
    let q = |m: RoutedDeclare|
        m.msg.body matches DeclareBody::UndeclareToken(u) && u.ext_wire_expr == WireExpr::Best(res);
    assert forall|k: FaceId, i: int|
        k < u.faces.len() && u.faces[k as int].listed && 0 <= i < step(k).sent.len() implies q(
        #[trigger] step(k).sent[i],
    ) by {
        law_undeclare_numbers(u, k, res, src);
        let m = forget_on(u, k, res, src).sent[i];
        assert(step(k).face.local_tokens == u.faces[k as int].local_tokens);
        assert(lookup(u.faces[k as int].local_tokens, m.res) is Some ==> has_key(
            u.faces[k as int].local_tokens,
            m.res,
        ));
    }
    lemma_sent_all(u, step, u.faces.len() as int, q);
    let twice = propagate_forget(u, res, src);
    assert forall|i: int| 0 <= i < t.faces.len() implies (
    #[trigger] twice.tables.faces[i]).local_tokens == u.faces[i].local_tokens by {
        assert(u.has_face(i as FaceId));
        if u.faces[i].listed {
            assert(step(i as FaceId).face.local_tokens == u.faces[i].local_tokens);
        }
    }
    assert forall|i: int|
        #![trigger twice.sent[i]]
        0 <= i < twice.sent.len() implies q(twice.sent[i]) by {
        assert(twice.sent[i] == sent_upto(u, step, u.faces.len() as int)[i]);
    }
}

/// Passing on an end keeps the tables in order.
proof fn lemma_propagate_forget_wf(t: TablesView, res: ResourceId, src: FaceId)
    requires
        t.wf(),
    ensures
        propagate_forget(t, res, src).tables.wf(),
{
    let u = propagate_forget(t, res, src).tables;
    assert forall|i: int| 0 <= i < u.faces.len() implies u.face_wf(#[trigger] u.faces[i]) by {
        let f = t.faces[i];
        assert(t.face_wf(f));
        let first = retract(t, i as FaceId, res, src).face;
        lemma_removed(f.local_tokens, res);
        lemma_without_token_wf(t, f, res);
        assert(first.local_tokens == removed(f.local_tokens, res));
        assert(t.face_wf(first));
        lemma_purge_wf(t, i as FaceId, first);
        let g = u.faces[i];
        assert(t.face_wf(g));
        assert forall|j: int| 0 <= j < g.remote_interests.len() implies u.interest_wf(
            (#[trigger] g.remote_interests[j]).1,
        ) by {
            assert(t.interest_wf(g.remote_interests[j].1));
        }
    }
    assert forall|i: int| 0 <= i < u.resources.len() implies u.resource_wf(
        #[trigger] u.resources[i],
    ) by {
        assert(t.resource_wf(t.resources[i]));
    }
}

/// The number made for a token in answer to an interest is kept: asking again gives the same
/// number and changes nothing.
pub proof fn law_token_number_is_kept(f: FaceView, res: ResourceId, mode: InterestMode)
    requires
        unique_keys(f.local_tokens),
    ensures
        id_for(with_id_for(f, res, mode), res, mode) == id_for(f, res, mode),
        with_id_for(with_id_for(f, res, mode), res, mode) == with_id_for(f, res, mode),
{
    lemma_put(f.local_tokens, res, f.next_id);
}

/// An interest that does not ask for tokens to come leaves no trace, and what it is told about
/// carries no number; one that does not ask for the present tokens is told nothing.
pub proof fn law_interest_without_future(
    t: TablesView,
    face: FaceId,
    id: InterestId,
    res: Option<ResourceId>,
    mode: InterestMode,
    aggregate: bool,
)
    requires
        t.has_face(face),
        !mode.wants_future(),
    ensures
        ({
            let step = interest_declared(t, face, id, res, mode, aggregate);
            &&& step.tables == t
            &&& !mode.wants_current() ==> step.sent.len() == 0
            &&& mode.wants_current() ==> step.sent == interest_answers(
                t,
                res,
                aggregate,
            ).map_values(
                |r: ResourceId| RoutedDeclare::declares_token(face, 0, r, Some(id)),
            )
        }),
{
    let f = t.faces[face as int];
    assert(t.faces.update(face as int, f) =~= t.faces);
    lemma_report_without_future(face, f, interest_answers(t, res, aggregate), mode, id);
}

proof fn lemma_report_without_future(
    face: FaceId,
    f: FaceView,
    targets: Seq<ResourceId>,
    mode: InterestMode,
    interest_id: InterestId,
)
    requires
        !mode.wants_future(),
    ensures
        report(face, f, targets, mode, interest_id) == (FaceStep {
            face: f,
            sent: targets.map_values(
                |r: ResourceId| RoutedDeclare::declares_token(face, 0, r, Some(interest_id)),
            ),
        }),
    decreases targets.len(),
{
    let name = |r: ResourceId| RoutedDeclare::declares_token(face, 0, r, Some(interest_id));
    if targets.len() > 0 {
        let rest = targets.drop_last();
        lemma_report_without_future(face, f, rest, mode, interest_id);
        assert(targets.map_values(name) =~= rest.map_values(name).push(name(targets.last())));
    } else {
        assert(targets.map_values(name) =~= Seq::<RoutedDeclare>::empty());
    }
}

/// A face is listed among those that declared a token on a resource exactly if it declared one,
/// and not twice.
pub proof fn law_token_faces(t: TablesView, res: ResourceId)
    requires
        t.wf(),
        t.has_resource(res),
    ensures
        ({
            let faces = token_faces(t.resources[res as int].session_ctxs);
            &&& forall|f: FaceId| #[trigger] faces.contains(f) <==> t.declares(res, f)
            &&& faces.no_duplicates()
        }),
{
    let ctxs = t.resources[res as int].session_ctxs;
    let keep = |e: (FaceId, SessionContext)| e.1.token;
    let kept = ctxs.filter(keep);
    let faces = token_faces(ctxs);
    assert(t.resource_wf(t.resources[res as int]));
    lemma_filter_keys(ctxs, keep);
    assert forall|f: FaceId| #[trigger] faces.contains(f) <==> t.declares(res, f) by {
        if faces.contains(f) {
            let i = choose|i: int| 0 <= i < faces.len() && faces[i] == f;
            assert(kept[i].0 == f);
            assert(has_key(kept, f));
        }
        if t.declares(res, f) {
            lemma_key_pos(ctxs, f);
            let p = key_pos(ctxs, f);
            assert(keep(ctxs[p]));
            assert(has_key(kept, f));
            lemma_key_pos(kept, f);
            assert(faces[key_pos(kept, f)] == f);
        }
    }
    assert forall|i: int, j: int|
        0 <= i < faces.len() && 0 <= j < faces.len() && i != j implies faces[i] != faces[j] by {
        assert(kept[i].0 == faces[i] && kept[j].0 == faces[j]);
    }
}

/// The remote end of a face holds a token on `res` exactly if it is bound to some number.
pub proof fn lemma_holds(f: FaceView, res: ResourceId)
    requires
        unique_keys(f.remote_tokens),
    ensures
        f.holds_remote_token(res) <==> exists|id: TokenId| #[trigger]
            lookup(f.remote_tokens, id) == Some(res),
{
    let s = f.remote_tokens;
    if f.holds_remote_token(res) {
        let i = choose|i: int| 0 <= i < s.len() && (#[trigger] s[i]).1 == res;
        lemma_lookup_at(s, i);
        assert(lookup(s, s[i].0) == Some(res));
    }
    if exists|id: TokenId| #[trigger] lookup(s, id) == Some(res) {
        let id = choose|id: TokenId| #[trigger] lookup(s, id) == Some(res);
        lemma_key_pos(s, id);
        assert(s[key_pos(s, id)].1 == res);
    }
}

/// Resources and faces agree on who declared which token.
pub open spec fn registry_agrees(t: TablesView) -> bool {
    forall|f: FaceId, r: ResourceId|
        t.has_face(f) && t.has_resource(r) ==> (#[trigger] t.declares(r, f)
            <==> t.faces[f as int].holds_remote_token(r))
}

/// The agreement is about nothing that changes when only tokens of this node change.
proof fn lemma_registry_frame(t: TablesView, u: TablesView)
    requires
        registry_agrees(t),
        only_local_tokens_differ(t, u),
    ensures
        registry_agrees(u),
{
    assert forall|f: FaceId, r: ResourceId| u.has_face(f) && u.has_resource(r) implies (
    #[trigger] u.declares(r, f) <==> u.faces[f as int].holds_remote_token(r)) by {
        assert(t.declares(r, f) == u.declares(r, f));
        let a = t.faces[f as int];
        let b = u.faces[f as int];
        assert(only_local_tokens(a, b));
        assert(a.remote_tokens == b.remote_tokens);
        assert(a.holds_remote_token(r) == b.holds_remote_token(r));
    }
}

/// Registering a token keeps resources and faces in agreement.
proof fn lemma_registered_agrees(t: TablesView, face: FaceId, id: TokenId, res: ResourceId)
    requires
        t.wf(),
        t.has_face(face),
        t.has_resource(res),
        registry_agrees(t),
        lookup(t.faces[face as int].remote_tokens, id) matches Some(r) ==> r == res,
    ensures
        registry_agrees(registered(t, face, id, res)),
{
    let u = registered(t, face, id, res);
    let a = t.faces[face as int];
    let b = u.faces[face as int];
    assert(t.face_wf(a));
    assert(t.resource_wf(t.resources[res as int]));
    lemma_put(a.remote_tokens, id, res);
    lemma_put(t.resources[res as int].session_ctxs, face, SessionContext { token: true });
    assert(u.resources[res as int].session_ctxs == put(
        t.resources[res as int].session_ctxs,
        face,
        SessionContext { token: true },
    ));
    assert(u.declares(res, face));
    assert forall|f: FaceId, r: ResourceId| u.has_face(f) && u.has_resource(r) implies (
    #[trigger] u.declares(r, f) <==> u.faces[f as int].holds_remote_token(r)) by {
        assert(t.declares(r, f) <==> t.faces[f as int].holds_remote_token(r));
        if r != res || f != face {
            assert(u.declares(r, f) == t.declares(r, f));
        }
        if f == face {
            lemma_holds(a, r);
            lemma_holds(b, r);
            assert(lookup(b.remote_tokens, id) == Some(res));
            if r != res {
                if a.holds_remote_token(r) {
                    let k = choose|k: TokenId| #[trigger] lookup(a.remote_tokens, k) == Some(r);
                    assert(lookup(b.remote_tokens, k) == Some(r));
                }
                if b.holds_remote_token(r) {
                    let k = choose|k: TokenId| #[trigger] lookup(b.remote_tokens, k) == Some(r);
                    assert(lookup(a.remote_tokens, k) == Some(r));
                }
            }
        }
    }
}

/// Resources and faces keep agreeing on who declared which token when a token is declared
/// under a number that its face does not use for another resource.
pub proof fn law_declare_keeps_registry(
    t: TablesView,
    face: FaceId,
    id: TokenId,
    res: ResourceId,
    interest_id: Option<InterestId>,
)
    requires
        t.wf(),
        t.has_face(face),
        t.has_resource(res),
        registry_agrees(t),
        lookup(t.faces[face as int].remote_tokens, id) matches Some(r) ==> r == res,
    ensures
        registry_agrees(declared(t, face, id, res, interest_id).tables),
{
    lemma_registered_agrees(t, face, id, res);
    lemma_registered_wf(t, face, id, res);
    let u = registered(t, face, id, res);
    match declare_outcome(t, face, interest_id) {
        DeclareOutcome::Answered => {
            let s = t.faces[face as int].pending_current_interests;
            assert(t.face_wf(t.faces[face as int]));
            lemma_key_pos(s, interest_id->0);
            let interest = lookup(s, interest_id->0)->0;
            let v = if interest.mode == InterestMode::CurrentFuture {
                u
            } else {
                t
            };
            lemma_registry_frame(v, declared(t, face, id, res, interest_id).tables);
        },
        DeclareOutcome::UnknownInterest => {},
        DeclareOutcome::Propagated => {
            law_propagate_frame(u, res, face, interest_id);
            lemma_registry_frame(u, propagate(u, res, face, interest_id).tables);
        },
    }
}

/// Registering a token keeps the tables in order.
pub proof fn lemma_registered_wf(t: TablesView, face: FaceId, id: TokenId, res: ResourceId)
    requires
        t.wf(),
        t.has_face(face),
        t.has_resource(res),
    ensures
        registered(t, face, id, res).wf(),
{
    let ctx = SessionContext { token: true };
    let u = t.with_ctx(res, face, ctx);
    lemma_with_ctx_wf(t, res, face, ctx);
    assert(u.face_wf(u.faces[face as int]));
    lemma_with_remote_token_wf(u, u.faces[face as int], id, res);
    lemma_with_face_wf(u, face, u.faces[face as int].with_remote_token(id, res));
}

/// Giving up a token changes, apart from the tokens of this node, nothing but the mark of that
/// face on that resource.
pub proof fn lemma_undeclared_frame(t: TablesView, face: FaceId, res: ResourceId)
    requires
        t.wf(),
        t.has_face(face),
        t.has_resource(res),
    ensures
        t.faces[face as int].holds_remote_token(res) ==> undeclared(t, face, res).tables == t,
        !t.faces[face as int].holds_remote_token(res) ==> only_local_tokens_differ(
            unmarked(t, res, face),
            undeclared(t, face, res).tables,
        ),
{
    let u = unmarked(t, res, face);
    lemma_with_ctx_wf(t, res, face, SessionContext { token: false });
    assert(u.wf());
    law_propagate_forget_frame(u, res, face);
    lemma_unmarked_token_faces(t, res, face);
}

/// Resources and faces keep agreeing on who declared which token when a token is given up.
pub proof fn law_forget_keeps_registry(
    t: TablesView,
    face: FaceId,
    id: TokenId,
    res: Option<ResourceId>,
)
    requires
        t.wf(),
        t.has_face(face),
        res matches Some(r) ==> t.has_resource(r),
        registry_agrees(t),
    ensures
        registry_agrees(forgotten(t, face, id, res).tables),
{
    let a = t.faces[face as int];
    let s = a.remote_tokens;
    assert(t.face_wf(a));
    if forgotten_resource(t, face, id, res) is Some {
        let gone = forgotten_resource(t, face, id, res)->0;
        let b = a.without_remote_token(id);
        let u = t.with_face(face, b);
        lemma_removed(s, id);
        lemma_without_remote_token_wf(t, a, id);
        lemma_with_face_wf(t, face, b);
        if has_key(s, id) {
            lemma_key_pos(s, id);
            assert(t.has_resource(s[key_pos(s, id)].1));
        }
        assert forall|r: ResourceId| r != gone implies #[trigger] a.holds_remote_token(r)
            == b.holds_remote_token(r) by {
            lemma_holds(a, r);
            lemma_holds(b, r);
            if a.holds_remote_token(r) {
                let k = choose|k: TokenId| #[trigger] lookup(a.remote_tokens, k) == Some(r);
                assert(lookup(b.remote_tokens, k) == Some(r));
            }
            if b.holds_remote_token(r) {
                let k = choose|k: TokenId| #[trigger] lookup(b.remote_tokens, k) == Some(r);
                assert(lookup(a.remote_tokens, k) == Some(r));
            }
        }
        lemma_holds(a, gone);
        lemma_holds(b, gone);
        if b.holds_remote_token(gone) {
            let k = choose|k: TokenId| #[trigger] lookup(b.remote_tokens, k) == Some(gone);
            assert(lookup(a.remote_tokens, k) == Some(gone));
        }
        let v = if b.holds_remote_token(gone) {
            u
        } else {
            unmarked(u, gone, face)
        };
        assert(registry_agrees(v)) by {
            let ctxs = t.resources[gone as int].session_ctxs;
            assert(t.resource_wf(t.resources[gone as int]));
            lemma_put(ctxs, face, SessionContext { token: false });
            assert forall|f: FaceId, r: ResourceId| v.has_face(f) && v.has_resource(r) implies (
            #[trigger] v.declares(r, f) <==> v.faces[f as int].holds_remote_token(r)) by {
                assert(t.declares(r, f) <==> t.faces[f as int].holds_remote_token(r));
                if r != gone || f != face {
                    assert(v.declares(r, f) == t.declares(r, f));
                }
            }
        }
        lemma_undeclared_frame(u, face, gone);
        lemma_registry_frame(v, undeclared(u, face, gone).tables);
    }
}

/// Giving up a token undoes its declaration: the resource is found under the number again, the
/// face holds what it held before, and the resource knows the same faces as before.
pub proof fn law_forget_undoes_declare(
    t: TablesView,
    face: FaceId,
    id: TokenId,
    res: ResourceId,
    interest_id: Option<InterestId>,
)
    requires
        t.wf(),
        t.has_face(face),
        t.has_resource(res),
        declare_outcome(t, face, interest_id) == DeclareOutcome::Propagated,
        !has_key(t.faces[face as int].remote_tokens, id),
        !t.faces[face as int].holds_remote_token(res),
        !t.declares(res, face),
    ensures
        ({
            let u = declared(t, face, id, res, interest_id).tables;
            let v = forgotten(u, face, id, None).tables;
            &&& u.declares(res, face)
            &&& u.faces[face as int].holds_remote_token(res)
            &&& forgotten_resource(u, face, id, None) == Some(res)
            &&& v.faces[face as int].remote_tokens == t.faces[face as int].remote_tokens
            &&& forall|r: ResourceId, f: FaceId|
                t.has_resource(r) ==> #[trigger] v.declares(r, f) == t.declares(r, f)
        }),
{
    let a = t.faces[face as int];
    let ctxs = t.resources[res as int].session_ctxs;
    assert(t.face_wf(a));
    assert(t.resource_wf(t.resources[res as int]));
    let g = registered(t, face, id, res);
    lemma_registered_wf(t, face, id, res);
    let u = declared(t, face, id, res, interest_id).tables;
    law_propagate_frame(g, res, face, interest_id);
    assert(only_local_tokens(g.faces[face as int], u.faces[face as int]));
    let b = u.faces[face as int];
    lemma_put(a.remote_tokens, id, res);
    lemma_put(ctxs, face, SessionContext { token: true });
    assert(b.remote_tokens == a.remote_tokens.push((id, res)));
    assert(b.remote_tokens[a.remote_tokens.len() as int].1 == res);
    assert(u.wf()) by {
        lemma_propagate_wf(g, res, face, interest_id);
    }
    assert(u.face_wf(b));
    lemma_lookup_at(b.remote_tokens, a.remote_tokens.len() as int);
    let w = u.with_face(face, b.without_remote_token(id));
    lemma_without_remote_token_wf(u, b, id);
    lemma_with_face_wf(u, face, b.without_remote_token(id));
    assert(w.faces[face as int].remote_tokens =~= a.remote_tokens);
    let v = forgotten(u, face, id, None).tables;
    lemma_undeclared_frame(w, face, res);
    let m = unmarked(w, res, face);
    assert(only_local_tokens(m.faces[face as int], v.faces[face as int]));
    let marked = u.resources[res as int].session_ctxs;
    lemma_put(marked, face, SessionContext { token: false });
    assert(marked == put(ctxs, face, SessionContext { token: true }));
    assert(lookup(m.resources[res as int].session_ctxs, face) == Some(
        SessionContext { token: false },
    ));
    assert forall|r: ResourceId, f: FaceId| t.has_resource(r) implies #[trigger] v.declares(r, f)
        == t.declares(r, f) by {
        assert(v.resources == m.resources);
        if r == res && f != face {
            assert(lookup(m.resources[res as int].session_ctxs, f) == lookup(marked, f));
            assert(lookup(marked, f) == lookup(ctxs, f));
        }
    }
}

/// Passing a token on keeps the tables in order.
pub proof fn lemma_propagate_wf(
    t: TablesView,
    res: ResourceId,
    src: FaceId,
    interest_id: Option<InterestId>,
)
    requires
        t.wf(),
        t.has_resource(res),
    ensures
        propagate(t, res, src, interest_id).tables.wf(),
{
    let u = propagate(t, res, src, interest_id).tables;
    law_propagate_frame(t, res, src, interest_id);
    assert forall|i: int| 0 <= i < u.faces.len() implies u.face_wf(#[trigger] u.faces[i]) by {
        let dst = i as FaceId;
        assert(t.face_wf(t.faces[i]));
        lemma_offer_targets(t, dst, res, interest_id);
        lemma_announce_wf(
            t,
            dst,
            t.faces[i],
            offer_targets(t, dst, res, interest_id),
            None,
        );
        let g = u.faces[i];
        assert(t.face_wf(g));
        assert forall|j: int| 0 <= j < g.remote_interests.len() implies u.interest_wf(
            (#[trigger] g.remote_interests[j]).1,
        ) by {
            assert(t.interest_wf(g.remote_interests[j].1));
        }
    }
    assert forall|i: int| 0 <= i < u.resources.len() implies u.resource_wf(
        #[trigger] u.resources[i],
    ) by {
        assert(t.resource_wf(t.resources[i]));
    }
}

/// The tokens of this node on a face have different numbers, all of them handed out already.
pub open spec fn numbers_apart(f: FaceView) -> bool {
    let s = f.local_tokens;
    &&& forall|i: int| 0 <= i < s.len() ==> (#[trigger] s[i]).1 < f.next_id
    &&& forall|i: int, j: int|
        #![trigger s[i], s[j]]
        0 <= i < j < s.len() ==> s[i].1 != s[j].1
}

/// Taking a fresh number for a token keeps numbers apart.
proof fn lemma_with_token_apart(f: FaceView, res: ResourceId)
    requires
        numbers_apart(f),
        !has_key(f.local_tokens, res),
        f.next_id < u32::MAX,
    ensures
        numbers_apart(f.with_token(res)),
{
}

/// How many tokens of this node a face gains on its way from `f` to `g`.
pub open spec fn tokens_gained(f: FaceView, g: FaceView) -> int {
    g.local_tokens.len() - f.local_tokens.len()
}

/// Declaring tokens on a face takes none away.
proof fn lemma_announce_grows(
    face: FaceId,
    f: FaceView,
    targets: Seq<ResourceId>,
    interest_id: Option<InterestId>,
)
    ensures
        tokens_gained(f, announce(face, f, targets, interest_id).face) >= 0,
    decreases targets.len(),
{
    if targets.len() > 0 {
        lemma_announce_grows(face, f, targets.drop_last(), interest_id);
    }
}

/// Declaring tokens keeps numbers apart and takes one for each token that is gained, as long as
/// they do not start over.
proof fn lemma_announce_apart(
    face: FaceId,
    f: FaceView,
    targets: Seq<ResourceId>,
    interest_id: Option<InterestId>,
)
    requires
        numbers_apart(f),
        f.next_id + tokens_gained(f, announce(face, f, targets, interest_id).face) <= u32::MAX,
    ensures
        ({
            let g = announce(face, f, targets, interest_id).face;
            numbers_apart(g) && g.next_id == f.next_id + tokens_gained(f, g)
        }),
    decreases targets.len(),
{
    if targets.len() > 0 {
        let rest = targets.drop_last();
        lemma_announce_grows(face, f, rest, interest_id);
        let b = announce(face, f, rest, interest_id).face;
        lemma_announce_apart(face, f, rest, interest_id);
        if !has_key(b.local_tokens, targets.last()) {
            lemma_with_token_apart(b, targets.last());
        }
    }
}

/// Some of the tokens of a face whose numbers are apart have numbers that are apart.
proof fn lemma_filter_apart(f: FaceView, keep: spec_fn((ResourceId, TokenId)) -> bool)
    requires
        numbers_apart(f),
    ensures
        numbers_apart(FaceView { local_tokens: f.local_tokens.filter(keep), ..f }),
    decreases f.local_tokens.len(),
{
    reveal(Seq::filter);
    let s = f.local_tokens;
    if s.len() > 0 {
        let shorter = FaceView { local_tokens: s.drop_last(), ..f };
        assert(numbers_apart(shorter)) by {
            let r = shorter.local_tokens;
            assert forall|i: int| 0 <= i < r.len() implies (#[trigger] r[i]).1 < f.next_id by {
                assert(r[i] == s[i]);
            }
            assert forall|i: int, j: int|
                #![trigger r[i], r[j]]
                0 <= i < j < r.len() implies r[i].1 != r[j].1 by {
                assert(r[i] == s[i] && r[j] == s[j]);
            }
        }
        lemma_filter_apart(shorter, keep);
        let a = s.drop_last().filter(keep);
        let b = s.filter(keep);
        if keep(s.last()) {
            assert forall|i: int| 0 <= i < a.len() implies (#[trigger] a[i]).1 != s.last().1 by {
                assert(a.contains(a[i]));
                s.drop_last().lemma_filter_contains_rev(keep, a[i]);
                let k = choose|k: int| 0 <= k < s.drop_last().len() && s.drop_last()[k] == a[i];
                assert(s[k] == a[i]);
                assert(s[k].1 != s[s.len() - 1].1);
            }
            let g = FaceView { local_tokens: a, ..shorter };
            assert(numbers_apart(g));
            assert(b == a.push(s.last()));
            assert forall|i: int| 0 <= i < b.len() implies (#[trigger] b[i]).1 < f.next_id by {
                if i < a.len() {
                    assert(b[i] == g.local_tokens[i]);
                } else {
                    assert(b[i] == s[s.len() - 1]);
                }
            }
            assert forall|i: int, j: int|
                #![trigger b[i], b[j]]
                0 <= i < j < b.len() implies b[i].1 != b[j].1 by {
                assert(b[i] == g.local_tokens[i] && b[i] == a[i]);
                if j < a.len() {
                    assert(b[j] == g.local_tokens[j]);
                }
            }
        }
    }
}

/// Dropping a token keeps numbers apart.
proof fn lemma_without_token_apart(f: FaceView, res: ResourceId)
    requires
        numbers_apart(f),
    ensures
        numbers_apart(f.without_token(res)),
{
    let s = f.local_tokens;
    if has_key(s, res) {
        lemma_key_pos(s, res);
        let p = key_pos(s, res);
        let r = s.remove(p);
        assert forall|i: int| 0 <= i < r.len() implies #[trigger] r[i] == s[if i < p {
            i
        } else {
            i + 1
        }] by {}
    }
}

/// Forgetting a token on a face keeps numbers apart as long as they do not start over.
proof fn lemma_forget_apart(t: TablesView, face: FaceId, res: ResourceId, src: FaceId)
    requires
        numbers_apart(t.faces[face as int]),
        t.faces[face as int].next_id <= forget_on(t, face, res, src).face.next_id,
    ensures
        numbers_apart(forget_on(t, face, res, src).face),
{
    let f = t.faces[face as int];
    let first = retract(t, face, res, src).face;
    lemma_without_token_apart(f, res);
    assert(numbers_apart(first));
    lemma_filter_apart(first, |e: (ResourceId, TokenId)| is_backed(t, e.0, face));
}

/// On every face the tokens of this node have different numbers.
pub open spec fn all_apart(t: TablesView) -> bool {
    forall|i: int| 0 <= i < t.faces.len() ==> numbers_apart(#[trigger] t.faces[i])
}

/// However a token arrives, the tokens of this node keep different numbers on each face, as
/// long as no face runs out of numbers for the tokens that it gains.
pub proof fn law_declare_keeps_numbers_apart(
    t: TablesView,
    face: FaceId,
    id: TokenId,
    res: ResourceId,
    interest_id: Option<InterestId>,
)
    requires
        t.wf(),
        t.has_face(face),
        t.has_resource(res),
        all_apart(t),
        forall|i: int|
            0 <= i < t.faces.len() ==> (#[trigger] t.faces[i]).next_id + tokens_gained(
                t.faces[i],
                declared(t, face, id, res, interest_id).tables.faces[i],
            ) <= u32::MAX,
    ensures
        all_apart(declared(t, face, id, res, interest_id).tables),
{
    let u = registered(t, face, id, res);
    assert(all_apart(u)) by {
        assert forall|i: int| 0 <= i < u.faces.len() implies numbers_apart(
            #[trigger] u.faces[i],
        ) by {
            assert(numbers_apart(t.faces[i]));
        }
    }
    let v = declared(t, face, id, res, interest_id).tables;
    match declare_outcome(t, face, interest_id) {
        DeclareOutcome::Answered => {
            let s = t.faces[face as int].pending_current_interests;
            assert(t.face_wf(t.faces[face as int]));
            lemma_key_pos(s, interest_id->0);
            let interest = lookup(s, interest_id->0)->0;
            let w = if interest.mode == InterestMode::CurrentFuture {
                u
            } else {
                t
            };
            let src = interest.src_face;
            assert(t.has_face(src));
            assert(numbers_apart(w.faces[src as int]));
            assert(w.faces[src as int].next_id == t.faces[src as int].next_id);
            if interest.mode.wants_future() && !has_key(w.faces[src as int].local_tokens, res) {
                lemma_with_token_apart(w.faces[src as int], res);
            }
            assert forall|i: int| 0 <= i < v.faces.len() implies numbers_apart(
                #[trigger] v.faces[i],
            ) by {
                assert(numbers_apart(w.faces[i]));
            }
        },
        DeclareOutcome::UnknownInterest => {},
        DeclareOutcome::Propagated => {
            assert forall|i: int| 0 <= i < v.faces.len() implies numbers_apart(
                #[trigger] v.faces[i],
            ) by {
                let dst = i as FaceId;
                let f = u.faces[i];
                assert(numbers_apart(f));
                assert(f.next_id == t.faces[i].next_id && f.local_tokens
                    == t.faces[i].local_tokens);
                if f.listed && should_offer(u, dst, res, face) {
                    lemma_announce_apart(
                        dst,
                        f,
                        offer_targets(u, dst, res, interest_id),
                        None,
                    );
                }
            }
        },
    }
}

/// However a token ends, the tokens of this node keep different numbers on each face, as long
/// as no face starts over with its numbers.
pub proof fn law_forget_keeps_numbers_apart(
    t: TablesView,
    face: FaceId,
    id: TokenId,
    res: Option<ResourceId>,
)
    requires
        t.wf(),
        t.has_face(face),
        res matches Some(r) ==> t.has_resource(r),
        all_apart(t),
        forall|i: int|
            0 <= i < t.faces.len() ==> (#[trigger] t.faces[i]).next_id <= forgotten(
                t,
                face,
                id,
                res,
            ).tables.faces[i].next_id,
    ensures
        all_apart(forgotten(t, face, id, res).tables),
{
    if forgotten_resource(t, face, id, res) is Some {
        let a = t.faces[face as int];
        let s = a.remote_tokens;
        let gone = forgotten_resource(t, face, id, res)->0;
        let u = t.with_face(face, a.without_remote_token(id));
        assert(t.face_wf(a));
        if has_key(s, id) {
            lemma_key_pos(s, id);
            assert(t.has_resource(s[key_pos(s, id)].1));
        }
        lemma_without_remote_token_wf(t, a, id);
        lemma_with_face_wf(t, face, a.without_remote_token(id));
        let w = unmarked(u, gone, face);
        lemma_with_ctx_wf(u, gone, face, SessionContext { token: false });
        assert forall|i: int| 0 <= i < w.faces.len() implies numbers_apart(
            #[trigger] w.faces[i],
        ) by {
            assert(numbers_apart(t.faces[i]));
        }
        let v = forgotten(t, face, id, res).tables;
        lemma_unmarked_token_faces(u, gone, face);
        assert forall|i: int| 0 <= i < v.faces.len() implies numbers_apart(
            #[trigger] v.faces[i],
        ) by {
            assert(numbers_apart(w.faces[i]));
            assert(w.faces[i].next_id == t.faces[i].next_id);
            if v.faces[i] == forget_on(w, i as FaceId, gone, face).face {
                lemma_forget_apart(w, i as FaceId, gone, face);
            }
            lemma_forget_apart(w, i as FaceId, gone, i as FaceId);
        }
    }
}

/// Reporting tokens to a face takes none away.
proof fn lemma_report_grows(
    face: FaceId,
    f: FaceView,
    targets: Seq<ResourceId>,
    mode: InterestMode,
    interest_id: InterestId,
)
    ensures
        tokens_gained(f, report(face, f, targets, mode, interest_id).face) >= 0,
    decreases targets.len(),
{
    if targets.len() > 0 {
        lemma_report_grows(face, f, targets.drop_last(), mode, interest_id);
    }
}

/// Reporting tokens keeps numbers apart and takes one for each token that is gained, as long as
/// they do not start over.
proof fn lemma_report_apart(
    face: FaceId,
    f: FaceView,
    targets: Seq<ResourceId>,
    mode: InterestMode,
    interest_id: InterestId,
)
    requires
        numbers_apart(f),
        f.next_id + tokens_gained(f, report(face, f, targets, mode, interest_id).face) <= u32::MAX,
    ensures
        ({
            let g = report(face, f, targets, mode, interest_id).face;
            numbers_apart(g) && g.next_id == f.next_id + tokens_gained(f, g)
        }),
    decreases targets.len(),
{
    if targets.len() > 0 {
        let rest = targets.drop_last();
        lemma_report_grows(face, f, rest, mode, interest_id);
        let b = report(face, f, rest, mode, interest_id).face;
        lemma_report_apart(face, f, rest, mode, interest_id);
        if mode.wants_future() && !has_key(b.local_tokens, targets.last()) {
            lemma_with_token_apart(b, targets.last());
        }
    }
}

/// Answering an interest keeps the numbers of the tokens of this node apart, as long as the
/// asking face does not run out of numbers for the tokens that it gains.
pub proof fn law_interest_keeps_numbers_apart(
    t: TablesView,
    face: FaceId,
    id: InterestId,
    res: Option<ResourceId>,
    mode: InterestMode,
    aggregate: bool,
)
    requires
        t.has_face(face),
        all_apart(t),
        t.faces[face as int].next_id + tokens_gained(
            t.faces[face as int],
            interest_declared(t, face, id, res, mode, aggregate).tables.faces[face as int],
        ) <= u32::MAX,
    ensures
        all_apart(interest_declared(t, face, id, res, mode, aggregate).tables),
{
    let targets = interest_answers(t, res, aggregate);
    assert(numbers_apart(t.faces[face as int]));
    if mode.wants_current() {
        lemma_report_apart(face, t.faces[face as int], targets, mode, id);
    }
    let u = interest_declared(t, face, id, res, mode, aggregate).tables;
    assert forall|i: int| 0 <= i < u.faces.len() implies numbers_apart(#[trigger] u.faces[i]) by {
        assert(numbers_apart(t.faces[i]));
    }
}

/// Offering tokens to a face keeps numbers apart and takes one for each token that is gained, as
/// long as they do not start over.
proof fn lemma_offer_all_apart(t: TablesView, dst: FaceId, tokens: Seq<(FaceId, ResourceId)>)
    requires
        t.has_face(dst),
        numbers_apart(t.faces[dst as int]),
        t.faces[dst as int].next_id + tokens_gained(
            t.faces[dst as int],
            offer_all(t, dst, tokens).face,
        ) <= u32::MAX,
    ensures
        ({
            let f = t.faces[dst as int];
            let g = offer_all(t, dst, tokens).face;
            numbers_apart(g) && g.next_id == f.next_id + tokens_gained(f, g)
        }),
    decreases tokens.len(),
{
    if tokens.len() > 0 {
        let rest = tokens.drop_last();
        let (src, res) = tokens.last();
        let b = offer_all(t, dst, rest).face;
        let u = t.with_face(dst, b);
        let targets = offer_targets(u, dst, res, None);
        assert(u.faces[dst as int] == b);
        lemma_announce_grows(dst, b, targets, Some(INITIAL_INTEREST_ID));
        lemma_offer_all_apart(t, dst, rest);
        if should_offer(u, dst, res, src) {
            lemma_announce_apart(dst, b, targets, Some(INITIAL_INTEREST_ID));
        }
    }
}

/// Telling a new face about the tokens keeps their numbers apart, as long as the face does not
/// run out of numbers for the tokens that it gains.
pub proof fn law_new_face_keeps_numbers_apart(t: TablesView, face: FaceId)
    requires
        t.has_face(face),
        all_apart(t),
        t.faces[face as int].next_id + tokens_gained(
            t.faces[face as int],
            new_face(t, face).tables.faces[face as int],
        ) <= u32::MAX,
    ensures
        all_apart(new_face(t, face).tables),
{
    assert(numbers_apart(t.faces[face as int]));
    if !t.is_client(face) {
        lemma_offer_all_apart(t, face, known_tokens(t, true));
    }
    let u = new_face(t, face).tables;
    assert forall|i: int| 0 <= i < u.faces.len() implies numbers_apart(#[trigger] u.faces[i]) by {
        assert(numbers_apart(t.faces[i]));
    }
}

/// What a new face is told, it is told as an answer to the interest that every peer is taken to
/// have.
pub proof fn law_new_face_messages(t: TablesView, face: FaceId)
    requires
        t.wf(),
        t.has_face(face),
    ensures
        forall|i: int|
            #![trigger new_face(t, face).sent[i]]
            0 <= i < new_face(t, face).sent.len() ==> {
                let m = new_face(t, face).sent[i];
                &&& m.face == face
                &&& m.msg.interest_id == Some(INITIAL_INTEREST_ID)
                &&& m.msg.body is DeclareToken
            },
{
    lemma_offer_all_messages(t, face, known_tokens(t, true));
}

proof fn lemma_offer_all_messages(t: TablesView, dst: FaceId, tokens: Seq<(FaceId, ResourceId)>)
    requires
        t.wf(),
        t.has_face(dst),
    ensures
        unique_keys(offer_all(t, dst, tokens).face.local_tokens),
        forall|i: int|
            #![trigger offer_all(t, dst, tokens).sent[i]]
            0 <= i < offer_all(t, dst, tokens).sent.len() ==> {
                let m = offer_all(t, dst, tokens).sent[i];
                &&& m.face == dst
                &&& m.msg.interest_id == Some(INITIAL_INTEREST_ID)
                &&& m.msg.body is DeclareToken
            },
    decreases tokens.len(),
{
    assert(t.face_wf(t.faces[dst as int]));
    if tokens.len() > 0 {
        let rest = tokens.drop_last();
        lemma_offer_all_messages(t, dst, rest);
        let before = offer_all(t, dst, rest);
        let u = t.with_face(dst, before.face);
        let targets = offer_targets(u, dst, tokens.last().1, None);
        assert(u.faces[dst as int] == before.face);
        lemma_announce(dst, before.face, targets, Some(INITIAL_INTEREST_ID));
        law_announce_sends_once(dst, before.face, targets, Some(INITIAL_INTEREST_ID));
    }
}

/// Matching was computed for every resource on which `f` has a token of this node or of its
/// remote end.
pub open spec fn face_matched(t: TablesView, f: FaceView) -> bool {
    &&& forall|r: ResourceId| #[trigger] has_key(f.local_tokens, r) ==> t.has_context(r)
    &&& forall|r: ResourceId| #[trigger] f.holds_remote_token(r) ==> t.has_context(r)
}

/// Matching was computed for every resource on which some face has a token.
pub open spec fn tokens_matched(t: TablesView) -> bool {
    forall|i: int| 0 <= i < t.faces.len() ==> face_matched(t, #[trigger] t.faces[i])
}

/// `u` knows the same resources as `t` with the same matches.
pub open spec fn same_contexts(t: TablesView, u: TablesView) -> bool {
    &&& t.resources.len() == u.resources.len()
    &&& forall|r: ResourceId|
        t.has_resource(r) ==> #[trigger] u.has_context(r) == t.has_context(r)
}

/// Where matching was computed for every token, any token may end.
pub proof fn law_matched_tokens_can_end(
    t: TablesView,
    face: FaceId,
    id: TokenId,
    res: Option<ResourceId>,
)
    requires
        t.wf(),
        t.has_face(face),
        res matches Some(r) ==> t.has_resource(r),
        tokens_matched(t),
    ensures
        can_forget(t, face, id, res),
{
    if forgotten_resource(t, face, id, res) is Some {
        let a = t.faces[face as int];
        let s = a.remote_tokens;
        let gone = forgotten_resource(t, face, id, res)->0;
        let b = a.without_remote_token(id);
        let u = t.with_face(face, b);
        assert(t.face_wf(a));
        if has_key(s, id) {
            lemma_key_pos(s, id);
            assert(t.has_resource(s[key_pos(s, id)].1));
        }
        lemma_without_remote_token_wf(t, a, id);
        lemma_with_face_wf(t, face, b);
        let w = unmarked(u, gone, face);
        lemma_with_ctx_wf(u, gone, face, SessionContext { token: false });
        assert forall|f: FaceId| w.has_face(f) implies #[trigger] w.local_tokens_matched_but(
            f,
            gone,
        ) by {
            assert(face_matched(t, t.faces[f as int]));
            assert(t.face_wf(t.faces[f as int]));
            let tokens = w.faces[f as int].local_tokens;
            assert forall|i: int| 0 <= i < tokens.len() implies w.has_context(
                (#[trigger] tokens[i]).0,
            ) by {
                assert(has_key(tokens, tokens[i].0));
                assert(t.has_resource(tokens[i].0));
                assert(t.has_context(tokens[i].0));
            }
        }
        lemma_unmarked_token_faces(u, gone, face);
    }
}

/// A face that keeps its remote tokens and gains no token without matches stays matched.
proof fn lemma_face_matched(t: TablesView, u: TablesView, f: FaceView, g: FaceView)
    requires
        t.face_wf(f),
        same_contexts(t, u),
        face_matched(t, f),
        g.remote_tokens == f.remote_tokens,
        forall|r: ResourceId| #[trigger]
            has_key(g.local_tokens, r) ==> has_key(f.local_tokens, r) || (t.has_resource(r)
                && t.has_context(r)),
    ensures
        face_matched(u, g),
{
    assert forall|r: ResourceId| #[trigger] has_key(g.local_tokens, r) implies u.has_context(r) by {
        if has_key(f.local_tokens, r) {
            lemma_key_pos(f.local_tokens, r);
            assert(t.has_resource(f.local_tokens[key_pos(f.local_tokens, r)].0));
        }
    }
    assert forall|r: ResourceId| #[trigger] g.holds_remote_token(r) implies u.has_context(r) by {
        let i = choose|i: int|
            0 <= i < g.remote_tokens.len() && (#[trigger] g.remote_tokens[i]).1 == r;
        assert(f.remote_tokens[i].1 == r);
        assert(f.holds_remote_token(r));
        assert(t.has_resource(f.remote_tokens[i].1));
    }
}

/// A face is told about nothing without matches.
proof fn lemma_targets_matched(
    t: TablesView,
    dst: FaceId,
    res: ResourceId,
    src_interest_id: Option<InterestId>,
)
    requires
        t.wf(),
        t.has_face(dst),
        t.has_resource(res),
        t.has_context(res),
    ensures
        forall|r: ResourceId| #[trigger]
            offer_targets(t, dst, res, src_interest_id).contains(r) ==> t.has_resource(r)
                && t.has_context(r),
{
    let targets = offer_targets(t, dst, res, src_interest_id);
    lemma_offer_targets(t, dst, res, src_interest_id);
    let s = t.faces[dst as int].remote_interests;
    let wanted = |e: (InterestId, RemoteInterest)|
        interest_wants(t, e.1, res, src_interest_id);
    let kept = s.filter(wanted);
    assert(t.face_wf(t.faces[dst as int]));
    assert forall|r: ResourceId| #[trigger] targets.contains(r) implies t.has_resource(r)
        && t.has_context(r) by {
        let i = choose|i: int| 0 <= i < targets.len() && targets[i] == r;
        if t.is_client(dst) {
            assert(kept.contains(kept[i]));
            s.lemma_filter_contains_rev(wanted, kept[i]);
            s.lemma_filter_pred(wanted, i);
            let j = choose|j: int| 0 <= j < s.len() && s[j] == kept[i];
            assert(t.interest_wf(s[j].1));
        }
    }
}

/// Tokens stay matched when a token arrives on a resource with matches.
pub proof fn law_declare_keeps_tokens_matched(
    t: TablesView,
    face: FaceId,
    id: TokenId,
    res: ResourceId,
    interest_id: Option<InterestId>,
)
    requires
        t.wf(),
        t.has_face(face),
        t.has_resource(res),
        t.has_context(res),
        tokens_matched(t),
    ensures
        tokens_matched(declared(t, face, id, res, interest_id).tables),
{
    let u = registered(t, face, id, res);
    let a = t.faces[face as int];
    lemma_registered_wf(t, face, id, res);
    assert(same_contexts(t, u));
    assert(t.face_wf(a));
    lemma_put(a.remote_tokens, id, res);
    assert(tokens_matched(u)) by {
        assert forall|i: int| 0 <= i < u.faces.len() implies face_matched(u, #[trigger] u.faces[i]) by {
            let f = t.faces[i];
            let g = u.faces[i];
            assert(t.face_wf(f));
            assert(face_matched(t, f));
            if i == face as int {
                assert forall|r: ResourceId| #[trigger]
                    g.holds_remote_token(r) implies u.has_context(r) by {
                    assert(u.face_wf(g));
                    lemma_holds(g, r);
                    lemma_holds(f, r);
                    let k = choose|k: TokenId| #[trigger] lookup(g.remote_tokens, k) == Some(r);
                    if k != id {
                        assert(lookup(f.remote_tokens, k) == Some(r));
                        lemma_key_pos(f.remote_tokens, k);
                        assert(t.has_resource(f.remote_tokens[key_pos(f.remote_tokens, k)].1));
                    }
                }
                assert forall|r: ResourceId| #[trigger]
                    has_key(g.local_tokens, r) implies u.has_context(r) by {
                    lemma_key_pos(f.local_tokens, r);
                    assert(t.has_resource(f.local_tokens[key_pos(f.local_tokens, r)].0));
                }
            } else {
                lemma_face_matched(t, u, f, g);
            }
        }
    }
    let v = declared(t, face, id, res, interest_id).tables;
    match declare_outcome(t, face, interest_id) {
        DeclareOutcome::Answered => {
            let s = a.pending_current_interests;
            lemma_key_pos(s, interest_id->0);
            let interest = lookup(s, interest_id->0)->0;
            let w = if interest.mode == InterestMode::CurrentFuture {
                u
            } else {
                t
            };
            assert(same_contexts(w, v));
            assert forall|i: int| 0 <= i < v.faces.len() implies face_matched(
                v,
                #[trigger] v.faces[i],
            ) by {
                let f = w.faces[i];
                let g = v.faces[i];
                assert(w.face_wf(f));
                assert(face_matched(w, f));
                lemma_put(f.local_tokens, res, f.next_id);
                assert forall|r: ResourceId| #[trigger] has_key(g.local_tokens, r) implies has_key(
                    f.local_tokens,
                    r,
                ) || (w.has_resource(r) && w.has_context(r)) by {
                    if r != res {
                        assert(lookup(put(f.local_tokens, res, f.next_id), r) == lookup(
                            f.local_tokens,
                            r,
                        ));
                    }
                }
                lemma_face_matched(w, v, f, g);
            }
        },
        DeclareOutcome::UnknownInterest => {},
        DeclareOutcome::Propagated => {
            law_propagate_frame(u, res, face, interest_id);
            assert(same_contexts(u, v));
            assert forall|i: int| 0 <= i < v.faces.len() implies face_matched(
                v,
                #[trigger] v.faces[i],
            ) by {
                let f = u.faces[i];
                let dst = i as FaceId;
                assert(u.face_wf(f));
                assert(face_matched(u, f));
                lemma_targets_matched(u, dst, res, interest_id);
                lemma_announce(dst, f, offer_targets(u, dst, res, interest_id), None);
                assert(only_local_tokens(f, v.faces[i]));
                lemma_face_matched(u, v, f, v.faces[i]);
            }
        },
    }
}

/// Tokens stay matched when a token ends.
pub proof fn law_forget_keeps_tokens_matched(
    t: TablesView,
    face: FaceId,
    id: TokenId,
    res: Option<ResourceId>,
)
    requires
        t.wf(),
        t.has_face(face),
        res matches Some(r) ==> t.has_resource(r),
        tokens_matched(t),
    ensures
        tokens_matched(forgotten(t, face, id, res).tables),
{
    if forgotten_resource(t, face, id, res) is Some {
        let a = t.faces[face as int];
        let s = a.remote_tokens;
        let gone = forgotten_resource(t, face, id, res)->0;
        let b = a.without_remote_token(id);
        let u = t.with_face(face, b);
        assert(t.face_wf(a));
        if has_key(s, id) {
            lemma_key_pos(s, id);
            assert(t.has_resource(s[key_pos(s, id)].1));
        }
        lemma_without_remote_token_wf(t, a, id);
        lemma_with_face_wf(t, face, b);
        let w = unmarked(u, gone, face);
        lemma_with_ctx_wf(u, gone, face, SessionContext { token: false });
        assert(same_contexts(t, w));
        assert(same_contexts(t, u));
        assert forall|i: int| 0 <= i < w.faces.len() implies face_matched(w, #[trigger] w.faces[i])
            && face_matched(u, u.faces[i]) by {
            let f = t.faces[i];
            let g = w.faces[i];
            assert(t.face_wf(f));
            assert(face_matched(t, f));
            assert forall|r: ResourceId| #[trigger] g.holds_remote_token(r) implies w.has_context(r)
                && u.has_context(r) by {
                let k = choose|k: int|
                    0 <= k < g.remote_tokens.len() && (#[trigger] g.remote_tokens[k]).1 == r;
                if i == face as int {
                    lemma_removed_subset(f.remote_tokens, id);
                    assert(f.remote_tokens.contains(g.remote_tokens[k]));
                    let j = choose|j: int|
                        0 <= j < f.remote_tokens.len() && f.remote_tokens[j] == g.remote_tokens[k];
                    assert(f.remote_tokens[j].1 == r);
                    assert(f.holds_remote_token(r));
                    assert(t.has_resource(f.remote_tokens[j].1));
                } else {
                    assert(f.remote_tokens[k].1 == r);
                    assert(f.holds_remote_token(r));
                    assert(t.has_resource(f.remote_tokens[k].1));
                }
            }
            assert forall|r: ResourceId| #[trigger]
                has_key(g.local_tokens, r) implies w.has_context(r) && u.has_context(r) by {
                lemma_key_pos(f.local_tokens, r);
                assert(t.has_resource(f.local_tokens[key_pos(f.local_tokens, r)].0));
            }
        }
        assert(tokens_matched(u)) by {
            assert forall|i: int| 0 <= i < u.faces.len() implies face_matched(
                u,
                #[trigger] u.faces[i],
            ) by {
                assert(face_matched(w, w.faces[i]));
            }
        }
        let v = undeclared(u, face, gone).tables;
        lemma_undeclared_frame(u, face, gone);
        if !b.holds_remote_token(gone) {
            assert(same_contexts(w, v));
            lemma_unmarked_token_faces(u, gone, face);
            assert forall|i: int| 0 <= i < v.faces.len() implies face_matched(
                v,
                #[trigger] v.faces[i],
            ) by {
                let f = w.faces[i];
                assert(w.face_wf(f));
                assert(face_matched(w, f));
                assert(only_local_tokens(f, v.faces[i]));
                lemma_forget_keys(w, i as FaceId, gone, face);
                lemma_forget_keys(w, i as FaceId, gone, i as FaceId);
                lemma_face_matched(w, v, f, v.faces[i]);
            }
        }
    }
}

/// Forgetting a token on a face adds none there.
proof fn lemma_forget_keys(t: TablesView, face: FaceId, res: ResourceId, src: FaceId)
    requires
        t.wf(),
        t.has_face(face),
    ensures
        forall|r: ResourceId| #[trigger]
            has_key(forget_on(t, face, res, src).face.local_tokens, r) ==> has_key(
                t.faces[face as int].local_tokens,
                r,
            ),
{
    let f = t.faces[face as int];
    let first = retract(t, face, res, src).face;
    assert(t.face_wf(f));
    lemma_removed(f.local_tokens, res);
    assert(first.local_tokens == removed(f.local_tokens, res));
    lemma_filter_keys(first.local_tokens, |e: (ResourceId, TokenId)| is_backed(t, e.0, face));
    assert forall|r: ResourceId| #[trigger]
        has_key(forget_on(t, face, res, src).face.local_tokens, r) implies has_key(
        f.local_tokens,
        r,
    ) by {
        assert(r != res);
        assert(lookup(first.local_tokens, r) == lookup(f.local_tokens, r));
    }
}

/// The known tokens are those that listed faces hold.
pub proof fn law_known_tokens(t: TablesView, routers: bool, n: int)
    requires
        t.wf(),
        n <= t.faces.len(),
    ensures
        forall|i: int|
            #![trigger known_tokens_upto(t, routers, n)[i]]
            0 <= i < known_tokens_upto(t, routers, n).len() ==> {
                let (f, r) = known_tokens_upto(t, routers, n)[i];
                &&& f < n
                &&& t.faces[f as int].listed
                &&& routers || t.faces[f as int].whatami != WhatAmI::Router
                &&& t.faces[f as int].holds_remote_token(r)
                &&& t.has_resource(r)
            },
        forall|f: FaceId, r: ResourceId|
            f < n && t.faces[f as int].listed && (routers || t.faces[f as int].whatami
                != WhatAmI::Router) && t.faces[f as int].holds_remote_token(r)
                ==> #[trigger] known_tokens_upto(t, routers, n).contains((f, r)),
    decreases n,
{
    if n > 0 {
        law_known_tokens(t, routers, n - 1);
        let before = known_tokens_upto(t, routers, n - 1);
        let all = known_tokens_upto(t, routers, n);
        let g = t.faces[n - 1];
        let k = (n - 1) as FaceId;
        assert(t.face_wf(g));
        assert forall|i: int| #![trigger all[i]] 0 <= i < all.len() implies {
            let (f, r) = all[i];
            &&& f < n
            &&& t.faces[f as int].listed
            &&& routers || t.faces[f as int].whatami != WhatAmI::Router
            &&& t.faces[f as int].holds_remote_token(r)
            &&& t.has_resource(r)
        } by {
            if i < before.len() {
                assert(all[i] == before[i]);
            } else {
                let e = g.remote_tokens[i - before.len()];
                assert(all[i] == (k, e.1));
                assert(t.has_resource(e.1));
            }
        }
        assert forall|f: FaceId, r: ResourceId|
            f < n && t.faces[f as int].listed && (routers || t.faces[f as int].whatami
                != WhatAmI::Router) && t.faces[f as int].holds_remote_token(
                r,
            ) implies #[trigger] all.contains((f, r)) by {
            if f < n - 1 {
                assert(before.contains((f, r)));
                let j = choose|j: int| 0 <= j < before.len() && before[j] == (f, r);
                assert(all[j] == (f, r));
            } else {
                let j = choose|j: int|
                    0 <= j < g.remote_tokens.len() && (#[trigger] g.remote_tokens[j]).1 == r;
                assert(all[before.len() + j] == (f, r));
            }
        }
    }
}

/// Reporting tokens adds none but those reported.
proof fn lemma_report_keys(
    face: FaceId,
    f: FaceView,
    targets: Seq<ResourceId>,
    mode: InterestMode,
    interest_id: InterestId,
)
    requires
        unique_keys(f.local_tokens),
    ensures
        unique_keys(report(face, f, targets, mode, interest_id).face.local_tokens),
        forall|r: ResourceId| #[trigger]
            has_key(report(face, f, targets, mode, interest_id).face.local_tokens, r) ==> has_key(
                f.local_tokens,
                r,
            ) || targets.contains(r),
    decreases targets.len(),
{
    if targets.len() > 0 {
        let rest = targets.drop_last();
        let res = targets.last();
        lemma_report_keys(face, f, rest, mode, interest_id);
        let b = report(face, f, rest, mode, interest_id).face;
        let g = report(face, f, targets, mode, interest_id).face;
        lemma_put(b.local_tokens, res, b.next_id);
        assert(targets[targets.len() - 1] == res);
        assert forall|r: ResourceId| #[trigger] has_key(g.local_tokens, r) implies has_key(
            f.local_tokens,
            r,
        ) || targets.contains(r) by {
            if r != res {
                assert(lookup(put(b.local_tokens, res, b.next_id), r) == lookup(
                    b.local_tokens,
                    r,
                ));
                if rest.contains(r) {
                    let i = choose|i: int| 0 <= i < rest.len() && rest[i] == r;
                    assert(targets[i] == r);
                }
            }
        }
    }
}

/// Tokens stay matched when an interest is answered.
pub proof fn law_interest_keeps_tokens_matched(
    t: TablesView,
    face: FaceId,
    id: InterestId,
    res: Option<ResourceId>,
    mode: InterestMode,
    aggregate: bool,
)
    requires
        t.wf(),
        t.has_face(face),
        res matches Some(r) ==> t.has_resource(r) && t.has_context(r),
        tokens_matched(t),
    ensures
        tokens_matched(interest_declared(t, face, id, res, mode, aggregate).tables),
{
    let u = interest_declared(t, face, id, res, mode, aggregate).tables;
    let f = t.faces[face as int];
    let targets = interest_answers(t, res, aggregate);
    assert(t.face_wf(f));
    law_interest_frame(t, face, id, res, mode, aggregate);
    assert(same_contexts(t, u));
    assert forall|r: ResourceId| #[trigger] targets.contains(r) implies t.has_resource(r)
        && t.has_context(r) by {
        lemma_answer_matched(t, res, aggregate, r);
    }
    lemma_report_keys(face, f, targets, mode, id);
    assert forall|i: int| 0 <= i < u.faces.len() implies face_matched(u, #[trigger] u.faces[i]) by {
        assert(t.face_wf(t.faces[i]));
        assert(face_matched(t, t.faces[i]));
        assert(only_local_tokens(t.faces[i], u.faces[i]));
        lemma_face_matched(t, u, t.faces[i], u.faces[i]);
    }
}

/// An interest is answered on resources with matches.
proof fn lemma_answer_matched(
    t: TablesView,
    res: Option<ResourceId>,
    aggregate: bool,
    answer: ResourceId,
)
    requires
        t.wf(),
        res matches Some(r) ==> t.has_resource(r) && t.has_context(r),
        tokens_matched(t),
        interest_answers(t, res, aggregate).contains(answer),
    ensures
        t.has_resource(answer),
        t.has_context(answer),
{
    let targets = interest_answers(t, res, aggregate);
    let i = choose|i: int| 0 <= i < targets.len() && targets[i] == answer;
    if !(res is Some && aggregate) {
        let tokens = known_tokens(t, false);
        law_known_tokens(t, false, t.faces.len() as int);
        let j = if res is Some {
            let keep = |e: (FaceId, ResourceId)| t.matches(e.1, res->0);
            let kept = tokens.filter(keep);
            assert(kept.contains(kept[i]));
            tokens.lemma_filter_contains_rev(keep, kept[i]);
            choose|j: int| 0 <= j < tokens.len() && tokens[j] == kept[i]
        } else {
            i
        };
        assert(tokens[j].1 == answer);
        let (f, r) = tokens[j];
        assert(face_matched(t, t.faces[f as int]));
        assert(t.faces[f as int].holds_remote_token(answer));
    }
}

/// Offering tokens to a face other than a client adds none but those offered.
proof fn lemma_offer_all_keys(t: TablesView, dst: FaceId, tokens: Seq<(FaceId, ResourceId)>)
    requires
        t.has_face(dst),
        !t.is_client(dst),
        unique_keys(t.faces[dst as int].local_tokens),
    ensures
        unique_keys(offer_all(t, dst, tokens).face.local_tokens),
        forall|r: ResourceId| #[trigger]
            has_key(offer_all(t, dst, tokens).face.local_tokens, r) ==> has_key(
                t.faces[dst as int].local_tokens,
                r,
            ) || exists|k: int| 0 <= k < tokens.len() && (#[trigger] tokens[k]).1 == r,
    decreases tokens.len(),
{
    if tokens.len() > 0 {
        let rest = tokens.drop_last();
        lemma_offer_all_keys(t, dst, rest);
        lemma_offer_all_frame(t, dst, rest);
        let b = offer_all(t, dst, rest).face;
        let u = t.with_face(dst, b);
        let res = tokens.last().1;
        assert(u.faces[dst as int] == b);
        lemma_announce(dst, b, offer_targets(u, dst, res, None), Some(INITIAL_INTEREST_ID));
        assert forall|r: ResourceId| #[trigger]
            has_key(offer_all(t, dst, tokens).face.local_tokens, r) implies has_key(
            t.faces[dst as int].local_tokens,
            r,
        ) || exists|k: int| 0 <= k < tokens.len() && (#[trigger] tokens[k]).1 == r by {
            if has_key(b.local_tokens, r) {
                if !has_key(t.faces[dst as int].local_tokens, r) {
                    let k = choose|k: int| 0 <= k < rest.len() && (#[trigger] rest[k]).1 == r;
                    assert(tokens[k].1 == r);
                }
            } else {
                assert(tokens[tokens.len() - 1].1 == r);
            }
        }
    }
}

/// Tokens stay matched when a new face is told about them.
pub proof fn law_new_face_keeps_tokens_matched(t: TablesView, face: FaceId)
    requires
        t.wf(),
        t.has_face(face),
        tokens_matched(t),
    ensures
        tokens_matched(new_face(t, face).tables),
{
    let u = new_face(t, face).tables;
    if !t.is_client(face) {
        let f = t.faces[face as int];
        let tokens = known_tokens(t, true);
        assert(t.face_wf(f));
        law_new_face_frame(t, face);
        law_known_tokens(t, true, t.faces.len() as int);
        lemma_offer_all_keys(t, face, tokens);
        assert(same_contexts(t, u));
        assert forall|i: int| 0 <= i < u.faces.len() implies face_matched(
            u,
            #[trigger] u.faces[i],
        ) by {
            assert(t.face_wf(t.faces[i]));
            assert(face_matched(t, t.faces[i]));
            assert(only_local_tokens(t.faces[i], u.faces[i]));
            assert forall|r: ResourceId| #[trigger]
                has_key(u.faces[i].local_tokens, r) implies has_key(t.faces[i].local_tokens, r) || (
            t.has_resource(r) && t.has_context(r)) by {
                if i == face as int && !has_key(f.local_tokens, r) {
                    let k = choose|k: int| 0 <= k < tokens.len() && (#[trigger] tokens[k]).1 == r;
                    let (g, m) = tokens[k];
                    assert(face_matched(t, t.faces[g as int]));
                    assert(t.faces[g as int].holds_remote_token(r));
                }
            }
            lemma_face_matched(t, u, t.faces[i], u.faces[i]);
        }
    }
}

/// A token that was not declared on the face and is so afterwards is told there.
pub proof fn lemma_announce_told(
    face: FaceId,
    f: FaceView,
    targets: Seq<ResourceId>,
    interest_id: Option<InterestId>,
    res: ResourceId,
)
    requires
        unique_keys(f.local_tokens),
        !has_key(f.local_tokens, res),
        has_key(announce(face, f, targets, interest_id).face.local_tokens, res),
    ensures
        ({
            let step = announce(face, f, targets, interest_id);
            step.sent.contains(
                RoutedDeclare::declares_token(
                    face,
                    lookup(step.face.local_tokens, res)->0,
                    res,
                    interest_id,
                ),
            )
        }),
    decreases targets.len(),
{
    if targets.len() > 0 {
        let rest = targets.drop_last();
        lemma_announce(face, f, rest, interest_id);
        let b = announce(face, f, rest, interest_id);
        let g = announce(face, f, targets, interest_id);
        if has_key(b.face.local_tokens, res) {
            lemma_announce_told(face, f, rest, interest_id, res);
            if !has_key(b.face.local_tokens, targets.last()) {
                lemma_put(b.face.local_tokens, targets.last(), b.face.next_id);
                let m = RoutedDeclare::declares_token(
                    face,
                    lookup(b.face.local_tokens, res)->0,
                    res,
                    interest_id,
                );
                let i = choose|i: int| 0 <= i < b.sent.len() && b.sent[i] == m;
                assert(g.sent[i] == m);
            }
        } else {
            lemma_put(b.face.local_tokens, targets.last(), b.face.next_id);
            if targets.last() != res {
                assert(lookup(g.face.local_tokens, res) == lookup(b.face.local_tokens, res));
            }
            assert(g.sent[b.sent.len() as int] == g.sent.last());
        }
    }
}

/// What the step of one face sends is sent.
pub proof fn lemma_sent_has(
    t: TablesView,
    step: spec_fn(FaceId) -> FaceStep,
    n: int,
    face: FaceId,
    m: RoutedDeclare,
)
    requires
        t.wf(),
        face < n <= t.faces.len(),
        t.faces[face as int].listed,
        step(face).sent.contains(m),
    ensures
        sent_upto(t, step, n).contains(m),
    decreases n,
{
    let before = sent_upto(t, step, n - 1);
    let all = sent_upto(t, step, n);
    if face == n - 1 {
        let now = step(face).sent;
        let i = choose|i: int| 0 <= i < now.len() && now[i] == m;
        assert(all[before.len() + i] == m);
    } else {
        lemma_sent_has(t, step, n - 1, face, m);
        let i = choose|i: int| 0 <= i < before.len() && before[i] == m;
        assert(all[i] == m);
    }
}

/// When a face gives up the last token on a resource, every listed face that this node had told
/// of it is told of its end under the number it was told of, and has it no longer.
pub proof fn law_last_token_ends_everywhere(
    t: TablesView,
    face: FaceId,
    id: TokenId,
    res: Option<ResourceId>,
    gone: ResourceId,
    other: FaceId,
)
    requires
        t.wf(),
        t.has_face(face),
        t.has_resource(gone),
        forgotten_resource(t, face, id, res) == Some(gone),
        !t.faces[face as int].without_remote_token(id).holds_remote_token(gone),
        forall|f: FaceId| #[trigger] t.declares(gone, f) ==> f == face,
        t.has_face(other),
        t.faces[other as int].listed,
    ensures
        ({
            let step = forgotten(t, face, id, res);
            let told = t.faces[other as int].local_tokens;
            &&& !has_key(step.tables.faces[other as int].local_tokens, gone)
            &&& has_key(told, gone) ==> step.sent.contains(
                RoutedDeclare::undeclares_token(
                    other,
                    lookup(told, gone)->0,
                    gone,
                    WireExpr::Empty,
                ),
            )
        }),
{
    let a = t.faces[face as int];
    let u = t.with_face(face, a.without_remote_token(id));
    let v = unmarked(u, gone, face);
    let ctxs = t.resources[gone as int].session_ctxs;
    assert(t.face_wf(a));
    assert(t.resource_wf(t.resources[gone as int]));
    lemma_without_remote_token_wf(t, a, id);
    lemma_with_face_wf(t, face, a.without_remote_token(id));
    lemma_with_ctx_wf(u, gone, face, SessionContext { token: false });
    lemma_put(ctxs, face, SessionContext { token: false });
    assert forall|f: FaceId| !(#[trigger] v.declares(gone, f)) by {
        assert(t.declares(gone, f) ==> f == face);
    }
    law_token_faces(v, gone);
    let left = token_faces(v.resources[gone as int].session_ctxs);
    if left.len() > 0 {
        assert(left.contains(left[0]));
    }
    assert(forgotten(t, face, id, res) == propagate_forget(v, gone, face));
    law_forget_is_complete(v, gone, face, other);
    let told = t.faces[other as int].local_tokens;
    assert(v.faces[other as int].local_tokens == told);
    if has_key(told, gone) {
        let m = RoutedDeclare::undeclares_token(
            other,
            lookup(told, gone)->0,
            gone,
            WireExpr::Empty,
        );
        assert(forget_on(v, other, gone, face).sent[0] == m);
        lemma_sent_has(
            v,
            |f: FaceId| forget_on(v, f, gone, face),
            v.faces.len() as int,
            other,
            m,
        );
    }
}

/// Every listed face that a token is owed to has it afterwards, on each resource on which it is
/// to be told, and was told of those that it did not have.
pub proof fn law_propagate_reaches(
    t: TablesView,
    res: ResourceId,
    src: FaceId,
    interest_id: Option<InterestId>,
    dst: FaceId,
    target: ResourceId,
)
    requires
        t.wf(),
        t.has_face(src),
        t.has_resource(res),
        t.has_face(dst),
        t.faces[dst as int].listed,
        should_offer(t, dst, res, src),
        offer_targets(t, dst, res, interest_id).contains(target),
    ensures
        ({
            let step = propagate(t, res, src, interest_id);
            let tokens = step.tables.faces[dst as int].local_tokens;
            &&& has_key(tokens, target)
            &&& !has_key(t.faces[dst as int].local_tokens, target) ==> step.sent.contains(
                RoutedDeclare::declares_token(dst, lookup(tokens, target)->0, target, None),
            )
        }),
{
    let f = t.faces[dst as int];
    let targets = offer_targets(t, dst, res, interest_id);
    let step = |d: FaceId| offer(t, d, res, src, interest_id, None);
    let tokens = propagate(t, res, src, interest_id).tables.faces[dst as int].local_tokens;
    assert(t.face_wf(f));
    lemma_announce(dst, f, targets, None);
    assert(tokens == announce(dst, f, targets, None).face.local_tokens);
    assert(has_key(tokens, target));
    if !has_key(f.local_tokens, target) {
        lemma_announce_told(dst, f, targets, None, target);
        lemma_sent_has(
            t,
            step,
            t.faces.len() as int,
            dst,
            RoutedDeclare::declares_token(dst, lookup(tokens, target)->0, target, None),
        );
    }
}

/// Offering tokens to a face other than a client takes none away, and leaves it with each one
/// that it is owed.
pub proof fn lemma_offer_all_reaches(
    t: TablesView,
    dst: FaceId,
    tokens: Seq<(FaceId, ResourceId)>,
    k: int,
)
    requires
        t.wf(),
        t.has_face(dst),
        !t.is_client(dst),
        forall|i: int|
            0 <= i < tokens.len() ==> t.has_face((#[trigger] tokens[i]).0) && t.has_resource(
                tokens[i].1,
            ),
        0 <= k < tokens.len(),
        should_offer(t, dst, tokens[k].1, tokens[k].0),
    ensures
        has_key(offer_all(t, dst, tokens).face.local_tokens, tokens[k].1),
    decreases tokens.len(),
{
    let rest = tokens.drop_last();
    let (src, res) = tokens.last();
    let b = offer_all(t, dst, rest).face;
    let u = t.with_face(dst, b);
    assert(t.face_wf(t.faces[dst as int]));
    assert forall|i: int| 0 <= i < rest.len() implies t.has_face((#[trigger] rest[i]).0)
        && t.has_resource(rest[i].1) by {
        assert(rest[i] == tokens[i]);
    }
    lemma_offer_all_keys(t, dst, rest);
    lemma_offer_all_frame(t, dst, rest);
    assert(u.faces[dst as int] == b);
    assert(only_local_tokens(t.faces[dst as int], b));
    assert(t.same_network(u));
    let targets = offer_targets(u, dst, res, None);
    lemma_announce(dst, b, targets, Some(INITIAL_INTEREST_ID));
    if k < rest.len() {
        assert(rest[k] == tokens[k]);
        lemma_offer_all_reaches(t, dst, rest, k);
    } else {
        assert(t.has_face(tokens[k].0));
        lemma_new_token_frame(t, u, res, src, dst);
        assert(t.faces[src as int].whatami == u.faces[src as int].whatami);
        assert(targets =~= seq![res]);
        assert(targets[0] == res);
        assert(targets.contains(res));
    }
}

/// A new face other than a client has every known token that it is owed.
pub proof fn law_new_face_reaches(t: TablesView, face: FaceId, src: FaceId, res: ResourceId)
    requires
        t.wf(),
        t.has_face(face),
        !t.is_client(face),
        known_tokens(t, true).contains((src, res)),
        should_offer(t, face, res, src),
    ensures
        has_key(new_face(t, face).tables.faces[face as int].local_tokens, res),
{
    let tokens = known_tokens(t, true);
    law_known_tokens(t, true, t.faces.len() as int);
    assert forall|i: int| 0 <= i < tokens.len() implies t.has_face((#[trigger] tokens[i]).0)
        && t.has_resource(tokens[i].1) by {
        let (f, r) = tokens[i];
        assert(f < t.faces.len());
    }
    let k = choose|k: int| 0 <= k < tokens.len() && tokens[k] == (src, res);
    lemma_offer_all_reaches(t, face, tokens, k);
}

/// `res` is among the tokens with some face from which it is owed to `dst`.
pub open spec fn is_owed(
    t: TablesView,
    dst: FaceId,
    tokens: Seq<(FaceId, ResourceId)>,
    res: ResourceId,
) -> bool {
    exists|src: FaceId| #[trigger] tokens.contains((src, res)) && should_offer(t, dst, res, src)
}

/// Offering tokens to a face other than a client takes none away, adds none that is not owed,
/// and tells the face of each one that is added.
pub proof fn lemma_offer_all_owed(t: TablesView, dst: FaceId, tokens: Seq<(FaceId, ResourceId)>)
    requires
        t.wf(),
        t.has_face(dst),
        !t.is_client(dst),
        forall|i: int|
            0 <= i < tokens.len() ==> t.has_face((#[trigger] tokens[i]).0) && t.has_resource(
                tokens[i].1,
            ),
    ensures
        ({
            let f = t.faces[dst as int];
            let step = offer_all(t, dst, tokens);
            let told = step.face.local_tokens;
            &&& unique_keys(told)
            &&& announces(dst, f, step.face, step.sent, Some(INITIAL_INTEREST_ID))
            &&& forall|r: ResourceId| #[trigger]
                has_key(told, r) ==> has_key(f.local_tokens, r) || (is_owed(t, dst, tokens, r)
                    && step.sent.contains(
                    RoutedDeclare::declares_token(
                        dst,
                        lookup(told, r)->0,
                        r,
                        Some(INITIAL_INTEREST_ID),
                    ),
                ))
            &&& forall|r: ResourceId|
                has_key(f.local_tokens, r) ==> #[trigger] lookup(told, r) == lookup(
                    f.local_tokens,
                    r,
                )
        }),
    decreases tokens.len(),
{
    let f = t.faces[dst as int];
    let iid = Some(INITIAL_INTEREST_ID);
    assert(t.face_wf(f));
    if tokens.len() > 0 {
        let rest = tokens.drop_last();
        let (src, res) = tokens.last();
        assert forall|i: int| 0 <= i < rest.len() implies t.has_face((#[trigger] rest[i]).0)
            && t.has_resource(rest[i].1) by {
            assert(rest[i] == tokens[i]);
        }
        lemma_offer_all_owed(t, dst, rest);
        lemma_offer_all_frame(t, dst, rest);
        let before = offer_all(t, dst, rest);
        let b = before.face;
        let u = t.with_face(dst, b);
        let now = offer(u, dst, res, src, None, iid);
        let step = offer_all(t, dst, tokens);
        let told = step.face.local_tokens;
        let last = tokens.len() - 1;
        assert(tokens[last] == (src, res));
        assert(tokens.contains((src, res)));
        assert(t.has_face(src) && t.has_resource(res));
        assert(u.faces[dst as int] == b);
        assert(only_local_tokens(f, b));
        assert(t.same_network(u));
        assert forall|r: ResourceId| is_owed(t, dst, rest, r) implies #[trigger] is_owed(
            t,
            dst,
            tokens,
            r,
        ) by {
            let g = choose|g: FaceId| #[trigger]
                rest.contains((g, r)) && should_offer(t, dst, r, g);
            let i = choose|i: int| 0 <= i < rest.len() && rest[i] == (g, r);
            assert(tokens[i] == (g, r));
            assert(tokens.contains((g, r)));
        }
        if should_offer(u, dst, res, src) {
            assert(offer_targets(u, dst, res, None) =~= seq![res]);
            lemma_announce(dst, b, seq![res], iid);
            law_announce_sends_once(dst, b, seq![res], iid);
            assert(seq![res].drop_last() =~= Seq::<ResourceId>::empty());
            reveal_with_fuel(announce, 2);
            lemma_put(b.local_tokens, res, b.next_id);
            assert(now.sent =~= seq![RoutedDeclare::declares_token(dst, b.next_id, res, iid)]);
            assert(step.sent =~= before.sent + now.sent);
            if has_key(f.local_tokens, res) {
                assert(lookup(b.local_tokens, res) == lookup(f.local_tokens, res));
            }
            lemma_new_token_frame(t, u, res, src, dst);
            assert(t.faces[src as int].whatami == u.faces[src as int].whatami);
            assert(should_offer(t, dst, res, src));
            assert(is_owed(t, dst, tokens, res));
            assert forall|i: int|
                #![trigger step.sent[i]]
                0 <= i < step.sent.len() implies !has_key(f.local_tokens, step.sent[i].res) && (
            lookup(told, step.sent[i].res) matches Some(id) && step.sent[i]
                == RoutedDeclare::declares_token(dst, id, step.sent[i].res, iid)) by {
                if i < before.sent.len() {
                    assert(step.sent[i] == before.sent[i]);
                    assert(has_key(b.local_tokens, before.sent[i].res));
                } else {
                    assert(step.sent[i] == now.sent[0]);
                }
            }
            assert forall|i: int, j: int|
                #![trigger step.sent[i], step.sent[j]]
                0 <= i < j < step.sent.len() implies step.sent[i].res != step.sent[j].res by {
                assert(step.sent[i] == before.sent[i]);
                assert(has_key(b.local_tokens, before.sent[i].res));
                if j < before.sent.len() {
                    assert(step.sent[j] == before.sent[j]);
                } else {
                    assert(step.sent[j] == now.sent[0]);
                }
            }
            assert forall|r: ResourceId| #[trigger] has_key(told, r) implies has_key(
                f.local_tokens,
                r,
            ) || (is_owed(t, dst, tokens, r) && step.sent.contains(
                RoutedDeclare::declares_token(dst, lookup(told, r)->0, r, iid),
            )) by {
                if r == res {
                    assert(step.sent[before.sent.len() as int] == now.sent[0]);
                } else {
                    assert(lookup(told, r) == lookup(b.local_tokens, r));
                    assert(has_key(b.local_tokens, r));
                    if !has_key(f.local_tokens, r) {
                        let m = RoutedDeclare::declares_token(dst, lookup(told, r)->0, r, iid);
                        let i = choose|i: int| 0 <= i < before.sent.len() && before.sent[i] == m;
                        assert(step.sent[i] == m);
                    }
                }
            }
        } else {
            assert(step.sent =~= before.sent);
            assert(step.face == b);
        }
    }
}

/// A new face gains no token that it is not owed, keeps those that it had, and is told of each
/// one that it gains once, under the number that it keeps for it. A client gains none.
pub proof fn law_new_face_gains_what_it_is_owed(t: TablesView, face: FaceId)
    requires
        t.wf(),
        t.has_face(face),
    ensures
        ({
            let f = t.faces[face as int];
            let step = new_face(t, face);
            let g = step.tables.faces[face as int];
            &&& announces(face, f, g, step.sent, Some(INITIAL_INTEREST_ID))
            &&& forall|r: ResourceId|
                has_key(f.local_tokens, r) ==> #[trigger] lookup(g.local_tokens, r) == lookup(
                    f.local_tokens,
                    r,
                )
            &&& forall|r: ResourceId| #[trigger]
                has_key(g.local_tokens, r) && !has_key(f.local_tokens, r) ==> !t.is_client(face)
                    && is_owed(t, face, known_tokens(t, true), r) && step.sent.contains(
                    RoutedDeclare::declares_token(
                        face,
                        lookup(g.local_tokens, r)->0,
                        r,
                        Some(INITIAL_INTEREST_ID),
                    ),
                )
        }),
{
    if !t.is_client(face) {
        let tokens = known_tokens(t, true);
        law_known_tokens(t, true, t.faces.len() as int);
        assert forall|i: int| 0 <= i < tokens.len() implies t.has_face((#[trigger] tokens[i]).0)
            && t.has_resource(tokens[i].1) by {
            let (f, r) = tokens[i];
            assert(f < t.faces.len());
        }
        lemma_offer_all_owed(t, face, tokens);
    }
}

/// As long as nobody has declared a token, resources and faces agree, numbers are apart and
/// tokens are matched.
pub proof fn law_no_tokens(t: TablesView)
    requires
        forall|i: int|
            0 <= i < t.faces.len() ==> (#[trigger] t.faces[i]).local_tokens.len() == 0
                && t.faces[i].remote_tokens.len() == 0,
        forall|i: int|
            0 <= i < t.resources.len() ==> (#[trigger] t.resources[i]).session_ctxs.len() == 0,
    ensures
        registry_agrees(t),
        all_apart(t),
        tokens_matched(t),
{
    assert forall|i: int| 0 <= i < t.faces.len() implies numbers_apart(#[trigger] t.faces[i])
        && face_matched(t, t.faces[i]) by {}
    assert forall|f: FaceId, r: ResourceId| t.has_face(f) && t.has_resource(r) implies (
    #[trigger] t.declares(r, f) <==> t.faces[f as int].holds_remote_token(r)) by {
        assert(t.resources[r as int].session_ctxs.len() == 0);
        assert(t.faces[f as int].remote_tokens.len() == 0);
        assert(!has_key(t.resources[r as int].session_ctxs, f));
    }
}

/// Resources and faces keep agreeing on who declared which token when a new face is told about
/// the tokens.
pub proof fn law_new_face_keeps_registry(t: TablesView, face: FaceId)
    requires
        t.has_face(face),
        registry_agrees(t),
    ensures
        registry_agrees(new_face(t, face).tables),
{
    law_new_face_frame(t, face);
    lemma_registry_frame(t, new_face(t, face).tables);
}

/// Resources and faces keep agreeing on who declared which token when an interest is answered.
pub proof fn law_interest_keeps_registry(
    t: TablesView,
    face: FaceId,
    id: InterestId,
    res: Option<ResourceId>,
    mode: InterestMode,
    aggregate: bool,
)
    requires
        t.has_face(face),
        registry_agrees(t),
    ensures
        registry_agrees(interest_declared(t, face, id, res, mode, aggregate).tables),
{
    law_interest_frame(t, face, id, res, mode, aggregate);
    lemma_registry_frame(t, interest_declared(t, face, id, res, mode, aggregate).tables);
}

} // verus!
