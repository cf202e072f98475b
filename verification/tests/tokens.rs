use zenoh_peer::declare::{
    Declare, DeclareBody, DeclareToken, QoSType, RoutedDeclare, UndeclareToken, WireExpr,
};
use zenoh_peer::dict::Dict;
use zenoh_peer::tables::{
    CurrentInterest, FaceId, InterestMode, InterestOptions, RemoteInterest, ResourceId, Tables,
    WhatAmI, ZenohId, DEFAULT_NODE_ID, INITIAL_INTEREST_ID,
};
use zenoh_peer::token::{
    can_forget_token, declare_token_interest, make_token_id, new_token, propagate_simple_token_to,
    register_simple_token, remote_simple_tokens, simple_tokens, token_new_face, DeclareOutcome,
    HatCode,
};

fn node(value: u128) -> ZenohId {
    ZenohId { value }
}

/// Resources 0, 1 and 2: the last one matches the others and itself.
fn network(roles: &[WhatAmI]) -> Tables {
    let mut t = Tables::new(node(100));
    for (i, role) in roles.iter().enumerate() {
        t.open_face(node(i as u128), *role);
    }
    t.add_resource("a/b".to_string(), Some(vec![0]));
    t.add_resource("a/c".to_string(), Some(vec![1]));
    t.add_resource("a/*".to_string(), Some(vec![2, 0, 1]));
    t.resources[0].context = Some(vec![0, 2]);
    t.resources[1].context = Some(vec![1, 2]);
    t
}

fn interest(res: Option<ResourceId>, mode: InterestMode, aggregate: bool) -> RemoteInterest {
    RemoteInterest { res, options: InterestOptions { tokens: true, aggregate }, mode }
}

fn declares(face: FaceId, id: u32, res: ResourceId, interest_id: Option<u32>) -> RoutedDeclare {
    RoutedDeclare {
        face,
        msg: Declare {
            interest_id,
            ext_qos: QoSType::Declare,
            ext_nodeid: DEFAULT_NODE_ID,
            body: DeclareBody::DeclareToken(DeclareToken { id, wire_expr: WireExpr::Declared(res) }),
        },
        res,
    }
}

fn undeclares(face: FaceId, id: u32, res: ResourceId, ext_wire_expr: WireExpr) -> RoutedDeclare {
    RoutedDeclare {
        face,
        msg: Declare {
            interest_id: None,
            ext_qos: QoSType::Declare,
            ext_nodeid: DEFAULT_NODE_ID,
            body: DeclareBody::UndeclareToken(UndeclareToken { id, ext_wire_expr }),
        },
        res,
    }
}

fn declare(t: &mut Tables, face: FaceId, id: u32, res: ResourceId) -> Vec<RoutedDeclare> {
    let mut sent = Vec::new();
    let outcome = HatCode.declare_token(t, face, id, res, DEFAULT_NODE_ID, None, &mut sent);
    assert_eq!(outcome, DeclareOutcome::Propagated);
    sent
}

fn undeclare(
    t: &mut Tables,
    face: FaceId,
    id: u32,
    res: Option<ResourceId>,
) -> (Option<ResourceId>, Vec<RoutedDeclare>) {
    let mut sent = Vec::new();
    let r = HatCode.undeclare_token(t, face, id, res, DEFAULT_NODE_ID, &mut sent);
    (r, sent)
}

#[test]
fn token_of_a_client_goes_to_peers_and_routers() {
    let mut t = network(&[WhatAmI::Client, WhatAmI::Peer, WhatAmI::Router, WhatAmI::Client]);
    let sent = declare(&mut t, 0, 7, 0);
    assert_eq!(sent, vec![declares(1, 0, 0, None), declares(2, 0, 0, None)]);
    assert_eq!(t.faces[1].local_tokens.entries, vec![(0, 0)]);
    assert_eq!(t.faces[1].next_id, 1);
    assert_eq!(t.faces[0].remote_tokens.entries, vec![(7, 0)]);
    assert_eq!(simple_tokens(&t.resources[0]), vec![0]);
    assert!(t.faces[3].local_tokens.entries.is_empty());
}

#[test]
fn token_of_a_peer_goes_to_interested_clients_only() {
    let mut t = network(&[WhatAmI::Peer, WhatAmI::Peer, WhatAmI::Client, WhatAmI::Client]);
    t.faces[2].remote_interests.insert(5, interest(Some(2), InterestMode::Future, false));
    let sent = declare(&mut t, 0, 1, 1);
    assert_eq!(sent, vec![declares(2, 0, 1, None)]);
}

#[test]
fn unlisted_faces_are_passed_over() {
    let mut t = network(&[WhatAmI::Client, WhatAmI::Peer, WhatAmI::Peer]);
    t.faces[1].listed = false;
    assert_eq!(declare(&mut t, 0, 1, 0), vec![declares(2, 0, 0, None)]);
}

#[test]
fn interests_decide_what_a_client_is_told() {
    let mut t = network(&[WhatAmI::Peer, WhatAmI::Client]);
    let wants = &mut t.faces[1].remote_interests;
    wants.insert(1, interest(Some(2), InterestMode::CurrentFuture, true));
    wants.insert(2, interest(None, InterestMode::Future, false));
    wants.insert(3, interest(Some(1), InterestMode::Future, false));
    wants.insert(
        4,
        RemoteInterest {
            res: Some(0),
            options: InterestOptions { tokens: false, aggregate: false },
            mode: InterestMode::Future,
        },
    );
    let mut sent = Vec::new();
    propagate_simple_token_to(&mut t, 1, 0, 0, None, Some(8), &mut sent);
    assert_eq!(sent, vec![declares(1, 0, 2, Some(8)), declares(1, 1, 0, Some(8))]);
    let mut again = Vec::new();
    propagate_simple_token_to(&mut t, 1, 0, 0, None, Some(8), &mut again);
    assert!(again.is_empty());
}

#[test]
fn answers_are_of_no_use_to_future_interests() {
    let mut t = network(&[WhatAmI::Peer, WhatAmI::Client]);
    t.faces[1].remote_interests.insert(2, interest(None, InterestMode::Future, false));
    let mut sent = Vec::new();
    propagate_simple_token_to(&mut t, 1, 0, 0, Some(3), None, &mut sent);
    assert!(sent.is_empty());
    t.faces[1].remote_interests.insert(3, interest(None, InterestMode::Current, false));
    propagate_simple_token_to(&mut t, 1, 0, 0, Some(3), None, &mut sent);
    assert_eq!(sent, vec![declares(1, 0, 0, None)]);
}

#[test]
fn second_source_is_no_news() {
    let mut t = network(&[WhatAmI::Client, WhatAmI::Client, WhatAmI::Peer, WhatAmI::Peer]);
    register_simple_token(&mut t, 0, 1, 0);
    assert!(new_token(&t, 0, 0, 2));
    assert!(!new_token(&t, 0, 1, 2));
    register_simple_token(&mut t, 3, 1, 1);
    assert!(new_token(&t, 1, 1, 2));
    assert!(!new_token(&t, 1, 2, 0));
    assert!(new_token(&t, 1, 2, 3));
}

#[test]
fn local_face_gets_its_own_tokens() {
    let mut t = network(&[WhatAmI::Client]);
    t.zid = node(0);
    t.faces[0].remote_interests.insert(1, interest(None, InterestMode::Future, false));
    assert_eq!(declare(&mut t, 0, 4, 0), vec![declares(0, 0, 0, None)]);
    assert!(remote_simple_tokens(&t, 0, 0));
    t.zid = node(100);
    assert!(!remote_simple_tokens(&t, 0, 0));
}

#[test]
fn unknown_interest_is_ignored() {
    let mut t = network(&[WhatAmI::Client, WhatAmI::Peer]);
    let mut sent = Vec::new();
    let outcome = HatCode.declare_token(&mut t, 0, 1, 0, 0, Some(9), &mut sent);
    assert_eq!(outcome, DeclareOutcome::UnknownInterest);
    assert!(sent.is_empty());
    assert!(t.faces[0].remote_tokens.entries.is_empty());
    t.faces[0].local_interests.push(9);
    let outcome = HatCode.declare_token(&mut t, 0, 1, 0, 0, Some(9), &mut sent);
    assert_eq!(outcome, DeclareOutcome::Propagated);
    assert_eq!(sent, vec![declares(1, 0, 0, None)]);
}

#[test]
fn pending_interest_is_answered() {
    for mode in [InterestMode::Current, InterestMode::CurrentFuture] {
        let mut t = network(&[WhatAmI::Peer, WhatAmI::Client, WhatAmI::Client]);
        t.faces[1].next_id = 40;
        t.faces[0].pending_current_interests.insert(
            6,
            CurrentInterest { src_face: 1, src_interest_id: 2, mode },
        );
        let mut sent = Vec::new();
        let outcome = HatCode.declare_token(&mut t, 0, 11, 0, 0, Some(6), &mut sent);
        assert_eq!(outcome, DeclareOutcome::Answered);
        let kept = mode == InterestMode::CurrentFuture;
        let id = if kept { 40 } else { 0 };
        assert_eq!(
            sent,
            vec![RoutedDeclare {
                face: 1,
                msg: Declare {
                    interest_id: Some(2),
                    ext_qos: QoSType::Default,
                    ext_nodeid: DEFAULT_NODE_ID,
                    body: DeclareBody::DeclareToken(DeclareToken {
                        id,
                        wire_expr: WireExpr::Best(0)
                    }),
                },
                res: 0,
            }]
        );
        assert_eq!(t.faces[0].remote_tokens.contains_key(11), kept);
        assert_eq!(t.faces[1].local_tokens.contains_key(0), kept);
    }
}

#[test]
fn last_token_is_forgotten_everywhere() {
    let mut t = network(&[WhatAmI::Client, WhatAmI::Peer, WhatAmI::Client]);
    t.faces[2].remote_interests.insert(1, interest(Some(2), InterestMode::Future, false));
    let sent = declare(&mut t, 0, 7, 0);
    assert_eq!(sent, vec![declares(1, 0, 0, None), declares(2, 0, 0, None)]);
    let (res, sent) = undeclare(&mut t, 0, 7, None);
    assert_eq!(res, Some(0));
    assert_eq!(
        sent,
        vec![undeclares(1, 0, 0, WireExpr::Empty), undeclares(2, 0, 0, WireExpr::Empty)]
    );
    for face in &t.faces {
        assert!(face.local_tokens.entries.is_empty());
        assert!(face.remote_tokens.entries.is_empty());
    }
    assert!(simple_tokens(&t.resources[0]).is_empty());
}

#[test]
fn undeclared_face_learns_with_a_number_of_its_own() {
    let mut t = network(&[WhatAmI::Client, WhatAmI::Client]);
    t.faces[1].next_id = 30;
    t.faces[1].remote_interests.insert(1, interest(Some(2), InterestMode::Current, false));
    t.faces[0].remote_interests.insert(1, interest(Some(2), InterestMode::Current, false));
    let (res, sent) = undeclare(&mut t, 0, 7, Some(0));
    assert_eq!(res, Some(0));
    assert_eq!(sent, vec![undeclares(1, 30, 0, WireExpr::Best(0))]);
    assert_eq!(t.faces[1].next_id, 31);
    t.faces[1].remote_interests.insert(1, interest(Some(2), InterestMode::Current, true));
    let (_, sent) = undeclare(&mut t, 0, 7, Some(0));
    assert!(sent.is_empty());
}

#[test]
fn aggregate_goes_with_its_last_token() {
    let mut t = network(&[WhatAmI::Peer, WhatAmI::Client]);
    t.faces[1].remote_interests.insert(1, interest(Some(2), InterestMode::Future, true));
    assert_eq!(declare(&mut t, 0, 1, 0), vec![declares(1, 0, 2, None)]);
    assert!(declare(&mut t, 0, 2, 1).is_empty());
    let (_, sent) = undeclare(&mut t, 0, 1, None);
    assert!(sent.is_empty());
    assert!(t.faces[1].local_tokens.contains_key(2));
    let (_, sent) = undeclare(&mut t, 0, 2, None);
    assert_eq!(sent, vec![undeclares(1, 0, 2, WireExpr::Empty)]);
    assert!(t.faces[1].local_tokens.entries.is_empty());
}

#[test]
fn token_declared_twice_ends_twice() {
    let mut t = network(&[WhatAmI::Client, WhatAmI::Peer]);
    declare(&mut t, 0, 1, 0);
    assert!(declare(&mut t, 0, 2, 0).is_empty());
    let (res, sent) = undeclare(&mut t, 0, 1, None);
    assert_eq!(res, Some(0));
    assert!(sent.is_empty());
    assert_eq!(simple_tokens(&t.resources[0]), vec![0]);
    let (_, sent) = undeclare(&mut t, 0, 2, None);
    assert_eq!(sent, vec![undeclares(1, 0, 0, WireExpr::Empty)]);
}

#[test]
fn last_peer_is_not_told_of_its_own_token() {
    let mut t = network(&[WhatAmI::Client, WhatAmI::Peer, WhatAmI::Client]);
    declare(&mut t, 0, 1, 0);
    declare(&mut t, 1, 1, 0);
    assert!(t.faces[1].local_tokens.contains_key(0));
    let (_, sent) = undeclare(&mut t, 0, 1, None);
    assert_eq!(sent, vec![undeclares(1, 0, 0, WireExpr::Empty)]);
    assert_eq!(simple_tokens(&t.resources[0]), vec![1]);
}

#[test]
fn remaining_clients_keep_the_token_up() {
    let mut t = network(&[WhatAmI::Client, WhatAmI::Client, WhatAmI::Peer]);
    declare(&mut t, 0, 1, 0);
    declare(&mut t, 1, 1, 0);
    let (_, sent) = undeclare(&mut t, 0, 1, None);
    assert!(sent.is_empty());
    assert!(t.faces[2].local_tokens.contains_key(0));
}

#[test]
fn unknown_number_without_resource_is_nothing() {
    let mut t = network(&[WhatAmI::Client, WhatAmI::Peer]);
    let (res, sent) = undeclare(&mut t, 0, 1, None);
    assert_eq!(res, None);
    assert!(sent.is_empty());
}

#[test]
fn new_peer_learns_the_tokens_of_clients() {
    let mut t = network(&[WhatAmI::Client, WhatAmI::Peer]);
    t.faces[1].listed = false;
    declare(&mut t, 0, 1, 0);
    declare(&mut t, 0, 2, 1);
    t.faces[1].listed = true;
    let mut sent = Vec::new();
    token_new_face(&mut t, 1, &mut sent);
    assert_eq!(
        sent,
        vec![
            declares(1, 0, 0, Some(INITIAL_INTEREST_ID)),
            declares(1, 1, 1, Some(INITIAL_INTEREST_ID))
        ]
    );
    let mut t = network(&[WhatAmI::Peer, WhatAmI::Peer]);
    register_simple_token(&mut t, 0, 1, 0);
    let mut sent = Vec::new();
    token_new_face(&mut t, 1, &mut sent);
    assert!(sent.is_empty());
}

#[test]
fn new_client_waits_until_it_asks() {
    let mut t = network(&[WhatAmI::Client, WhatAmI::Client]);
    declare(&mut t, 0, 1, 0);
    t.faces[1].remote_interests.insert(1, interest(None, InterestMode::Future, false));
    let mut sent = Vec::new();
    token_new_face(&mut t, 1, &mut sent);
    assert!(sent.is_empty());
}

#[test]
fn numbers_are_made_for_future_interests_and_kept() {
    let mut t = network(&[WhatAmI::Client]);
    t.faces[0].next_id = 4294967295;
    assert_eq!(make_token_id(&mut t, 0, 0, InterestMode::Current), 0);
    assert!(t.faces[0].local_tokens.entries.is_empty());
    assert_eq!(make_token_id(&mut t, 0, 0, InterestMode::CurrentFuture), 4294967295);
    assert_eq!(make_token_id(&mut t, 0, 0, InterestMode::Future), 4294967295);
    assert_eq!(t.faces[0].next_id, 0);
    assert_eq!(make_token_id(&mut t, 1, 0, InterestMode::Future), 0);
}

fn ask(
    t: &mut Tables,
    face: FaceId,
    res: Option<ResourceId>,
    mode: InterestMode,
    aggregate: bool,
) -> Vec<RoutedDeclare> {
    let mut sent = Vec::new();
    declare_token_interest(t, face, 20, res, mode, aggregate, &mut sent);
    sent
}

#[test]
fn interests_are_answered_with_what_is_there() {
    let mut t = network(&[WhatAmI::Client, WhatAmI::Router, WhatAmI::Peer]);
    register_simple_token(&mut t, 2, 1, 0);
    register_simple_token(&mut t, 1, 1, 1);
    assert_eq!(
        ask(&mut t, 0, Some(2), InterestMode::Current, false),
        vec![declares(0, 0, 0, Some(20))]
    );
    assert_eq!(ask(&mut t, 0, None, InterestMode::Current, false), vec![declares(0, 0, 0, Some(20))]);
    assert_eq!(ask(&mut t, 0, Some(1), InterestMode::Current, false), vec![]);
    assert_eq!(ask(&mut t, 0, Some(1), InterestMode::Current, true), vec![declares(0, 0, 1, Some(20))]);
    assert_eq!(ask(&mut t, 0, None, InterestMode::Future, false), vec![]);
    assert_eq!(ask(&mut t, 0, None, InterestMode::Final, true), vec![]);
    assert!(t.faces[0].local_tokens.entries.is_empty());
    t.faces[0].next_id = 3;
    assert_eq!(
        ask(&mut t, 0, Some(2), InterestMode::CurrentFuture, true),
        vec![declares(0, 3, 2, Some(20))]
    );
    assert_eq!(
        ask(&mut t, 0, None, InterestMode::CurrentFuture, true),
        vec![declares(0, 4, 0, Some(20))]
    );
    assert_eq!(
        ask(&mut t, 0, Some(2), InterestMode::CurrentFuture, true),
        vec![declares(0, 3, 2, Some(20))]
    );
}

#[test]
fn tokens_without_matches_are_not_named() {
    let mut t = network(&[WhatAmI::Client, WhatAmI::Peer]);
    register_simple_token(&mut t, 1, 1, 0);
    t.resources[0].context = None;
    assert_eq!(ask(&mut t, 0, Some(2), InterestMode::Current, false), vec![]);
    assert_eq!(ask(&mut t, 0, Some(2), InterestMode::Current, true), vec![]);
    assert_eq!(ask(&mut t, 0, None, InterestMode::Current, false), vec![declares(0, 0, 0, Some(20))]);
}

#[test]
fn dict_keeps_first_places() {
    let mut d: Dict<u32, u32> = Dict::new();
    d.insert(3, 1);
    d.insert(1, 2);
    d.insert(3, 4);
    assert_eq!(d.entries, vec![(3, 4), (1, 2)]);
    assert_eq!(d.get(3), Some(4));
    assert_eq!(d.remove(3), Some(4));
    assert_eq!(d.remove(3), None);
    assert_eq!(d.entries, vec![(1, 2)]);
}

/// Resources and faces agree on who declared which token.
fn registry_agrees(t: &Tables) -> bool {
    (0..t.resources.len()).all(|res| {
        (0..t.faces.len()).all(|face| {
            let marked = simple_tokens(&t.resources[res]).contains(&face);
            let held = t.faces[face].remote_tokens.entries.iter().any(|e| e.1 == res);
            marked == held
        })
    })
}

/// On every face the tokens of this node have different numbers, handed out already.
fn numbers_apart(t: &Tables) -> bool {
    t.faces.iter().all(|face| {
        let mut ids: Vec<u32> = face.local_tokens.entries.iter().map(|e| e.1).collect();
        let known = ids.len();
        ids.sort();
        ids.dedup();
        ids.len() == known && ids.iter().all(|id| *id < face.next_id)
    })
}

#[test]
fn registry_and_numbers_stay_in_order() {
    let mut t = network(&[WhatAmI::Client, WhatAmI::Peer, WhatAmI::Router, WhatAmI::Client]);
    t.faces[3].remote_interests.insert(1, interest(Some(2), InterestMode::CurrentFuture, true));
    t.faces[3].remote_interests.insert(2, interest(None, InterestMode::Future, false));
    assert!(registry_agrees(&t) && numbers_apart(&t));
    for (face, id, res) in [(0, 1, 0), (1, 1, 1), (2, 5, 0), (3, 1, 2), (0, 2, 1), (0, 1, 0)] {
        declare(&mut t, face, id, res);
        assert!(registry_agrees(&t) && numbers_apart(&t));
    }
    ask(&mut t, 3, Some(2), InterestMode::CurrentFuture, false);
    assert!(registry_agrees(&t) && numbers_apart(&t));
    let face = t.open_face(node(9), WhatAmI::Peer);
    let mut sent = Vec::new();
    token_new_face(&mut t, face, &mut sent);
    assert_eq!(sent.len(), 3);
    assert!(registry_agrees(&t) && numbers_apart(&t));
    for (face, id) in [(0, 2), (1, 1), (3, 1), (2, 5), (0, 1)] {
        undeclare(&mut t, face, id, None);
        assert!(registry_agrees(&t) && numbers_apart(&t));
    }
    for face in &t.faces {
        assert!(face.remote_tokens.entries.is_empty());
        assert!(face.local_tokens.entries.is_empty());
    }
}

#[test]
fn reused_number_leaves_the_old_mark() {
    let mut t = network(&[WhatAmI::Client, WhatAmI::Peer]);
    declare(&mut t, 0, 1, 0);
    declare(&mut t, 0, 1, 1);
    assert_eq!(t.faces[0].remote_tokens.entries, vec![(1, 1)]);
    assert_eq!(simple_tokens(&t.resources[0]), vec![0]);
    assert!(!registry_agrees(&t));
}

#[test]
fn passing_on_touches_only_the_tokens_of_the_node() {
    let mut t = network(&[WhatAmI::Client, WhatAmI::Client, WhatAmI::Peer]);
    t.faces[1].remote_interests.insert(4, interest(Some(2), InterestMode::Future, false));
    t.faces[1].local_interests.push(8);
    declare(&mut t, 0, 3, 0);
    undeclare(&mut t, 0, 3, None);
    assert_eq!(t.zid, node(100));
    assert_eq!(t.faces[1].remote_interests.entries, vec![(
        4,
        interest(Some(2), InterestMode::Future, false)
    )]);
    assert_eq!(t.faces[1].local_interests, vec![8]);
    assert_eq!(t.faces[1].next_id, 1);
    assert_eq!(t.faces[2].whatami, WhatAmI::Peer);
    assert!(t.faces[2].listed);
    assert_eq!(t.resources[0].expr(), "a/b");
    assert_eq!(t.resources[0].context, Some(vec![0, 2]));
}

#[test]
fn declaring_and_giving_up_leaves_things_as_they_were() {
    let mut t = network(&[WhatAmI::Client, WhatAmI::Peer, WhatAmI::Client]);
    declare(&mut t, 2, 9, 0);
    declare(&mut t, 0, 4, 0);
    let (res, _) = undeclare(&mut t, 0, 4, None);
    assert_eq!(res, Some(0));
    assert_eq!(simple_tokens(&t.resources[0]), vec![2]);
    assert!(t.faces[0].remote_tokens.entries.is_empty());
    assert_eq!(t.faces[2].remote_tokens.entries, vec![(9, 0)]);
}

#[test]
fn tokens_end_where_matches_are_known() {
    let mut t = network(&[WhatAmI::Client, WhatAmI::Peer, WhatAmI::Client]);
    declare(&mut t, 0, 1, 0);
    declare(&mut t, 0, 2, 1);
    assert!(can_forget_token(&t, 0, 1, None));
    t.resources[0].context = None;
    assert!(can_forget_token(&t, 0, 1, None));
    assert!(!can_forget_token(&t, 0, 2, None));
    assert!(!can_forget_token(&t, 2, 9, Some(2)));
    assert!(can_forget_token(&t, 2, 9, Some(0)));
    assert!(can_forget_token(&t, 2, 9, Some(1)));
    assert!(can_forget_token(&t, 2, 9, None));
    t.faces[1].listed = false;
    assert!(can_forget_token(&t, 0, 2, None));
    t.faces[1].listed = true;
    declare(&mut t, 0, 3, 1);
    assert!(can_forget_token(&t, 0, 2, None));
    let (_, sent) = undeclare(&mut t, 0, 1, None);
    assert_eq!(sent, vec![undeclares(1, 0, 0, WireExpr::Empty)]);
}

#[test]
fn second_end_is_no_news() {
    let mut t = network(&[WhatAmI::Client, WhatAmI::Peer, WhatAmI::Client]);
    t.faces[2].remote_interests.insert(1, interest(Some(2), InterestMode::Future, false));
    declare(&mut t, 0, 1, 0);
    declare(&mut t, 0, 2, 1);
    undeclare(&mut t, 0, 1, None);
    let (_, sent) = undeclare(&mut t, 0, 1, Some(0));
    assert_eq!(sent, vec![undeclares(2, 2, 0, WireExpr::Best(0))]);
    assert_eq!(t.faces[1].local_tokens.entries, vec![(1, 1)]);
    assert_eq!(t.faces[2].local_tokens.entries, vec![(1, 1)]);
}

#[test]
fn new_face_gains_what_it_is_owed() {
    let mut t = network(&[WhatAmI::Client, WhatAmI::Peer]);
    register_simple_token(&mut t, 0, 1, 0);
    register_simple_token(&mut t, 0, 2, 0);
    register_simple_token(&mut t, 1, 1, 1);
    let face = t.open_face(node(9), WhatAmI::Router);
    t.faces[face].next_id = 6;
    let mut sent = Vec::new();
    token_new_face(&mut t, face, &mut sent);
    assert_eq!(sent, vec![declares(face, 6, 0, Some(INITIAL_INTEREST_ID))]);
    assert_eq!(t.faces[face].local_tokens.entries, vec![(0, 6)]);
}

#[test]
fn numbers_suffice_for_the_tokens_that_are_gained() {
    let mut t = network(&[WhatAmI::Client, WhatAmI::Client]);
    t.faces[1].next_id = 4294967294;
    for id in 0..9 {
        let wants = interest(Some(2), InterestMode::Future, true);
        t.faces[1].remote_interests.insert(id, wants);
    }
    let sent = declare(&mut t, 0, 1, 0);
    assert_eq!(sent, vec![declares(1, 4294967294, 2, None)]);
    assert_eq!(t.faces[1].next_id, 4294967295);
    assert!(numbers_apart(&t));
}

#[test]
fn resources_are_found_by_their_expression() {
    let t = network(&[]);
    assert_eq!(t.get_resource("a/c"), Some(1));
    assert_eq!(t.get_resource("a/*"), Some(2));
    assert_eq!(t.get_resource("a"), None);
}
