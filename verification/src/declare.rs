//! The declarations that the node sends about tokens.

use vstd::prelude::*;

use crate::tables::{FaceId, InterestId, NodeId, ResourceId, TokenId, DEFAULT_NODE_ID};

verus! {

/// The quality of service of a declaration.
#[derive(Clone, Copy, PartialEq, Eq, Structural, Debug)]
pub enum QoSType {
    /// The one of every message that asks for nothing special.
    Default,
    /// The one that declarations are sent with.
    Declare,
}

/// How a key expression is put on the wire. Which bytes that makes depends on the expressions
/// that the receiving face already knows, so they are worked out when the message is sent.
#[derive(Clone, Copy, PartialEq, Eq, Structural, Debug)]
pub enum WireExpr {
    /// No key expression.
    Empty,
    /// The key expression of the resource, in the form used for declarations: it may first be
    /// declared on the face itself.
    Declared(ResourceId),
    /// The shortest form of the key expression of the resource that the face already knows.
    Best(ResourceId),
}

#[derive(Clone, Copy, PartialEq, Eq, Structural, Debug)]
pub struct DeclareToken {
    pub id: TokenId,
    pub wire_expr: WireExpr,
}

#[derive(Clone, Copy, PartialEq, Eq, Structural, Debug)]
pub struct UndeclareToken {
    pub id: TokenId,
    pub ext_wire_expr: WireExpr,
}

#[derive(Clone, Copy, PartialEq, Eq, Structural, Debug)]
pub enum DeclareBody {
    DeclareToken(DeclareToken),
    UndeclareToken(UndeclareToken),
}

/// A declaration. It carries no timestamp.
#[derive(Clone, Copy, PartialEq, Eq, Structural, Debug)]
pub struct Declare {
    /// The interest that this declaration answers.
    pub interest_id: Option<InterestId>,
    pub ext_qos: QoSType,
    pub ext_nodeid: NodeId,
    pub body: DeclareBody,
}

/// A declaration on its way out of `face`; `res` is the resource whose full key expression
/// goes along with it for the interceptors of the face.
#[derive(Clone, Copy, PartialEq, Eq, Structural, Debug)]
pub struct RoutedDeclare {
    pub face: FaceId,
    pub msg: Declare,
    pub res: ResourceId,
}

impl RoutedDeclare {
    /// The token on `res` is declared on `face` under `id`.
    pub open spec fn declares_token(
        face: FaceId,
        id: TokenId,
        res: ResourceId,
        interest_id: Option<InterestId>,
    ) -> RoutedDeclare {
        RoutedDeclare {
            face,
            msg: Declare {
                interest_id,
                ext_qos: QoSType::Declare,
                ext_nodeid: DEFAULT_NODE_ID,
                body: DeclareBody::DeclareToken(
                    DeclareToken { id, wire_expr: WireExpr::Declared(res) },
                ),
            },
            res,
        }
    }

    pub fn declare_token(
        face: FaceId,
        id: TokenId,
        res: ResourceId,
        interest_id: Option<InterestId>,
    ) -> (m: RoutedDeclare)
        ensures
            m == RoutedDeclare::declares_token(face, id, res, interest_id),
    {
        RoutedDeclare {
            face,
            msg: Declare {
                interest_id,
                ext_qos: QoSType::Declare,
                ext_nodeid: DEFAULT_NODE_ID,
                body: DeclareBody::DeclareToken(
                    DeclareToken { id, wire_expr: WireExpr::Declared(res) },
                ),
            },
            res,
        }
    }

    /// A token on `res` answers the interest `interest_id` that `face` sent.
    pub open spec fn answers_interest(
        face: FaceId,
        id: TokenId,
        res: ResourceId,
        interest_id: InterestId,
    ) -> RoutedDeclare {
        RoutedDeclare {
            face,
            msg: Declare {
                interest_id: Some(interest_id),
                ext_qos: QoSType::Default,
                ext_nodeid: DEFAULT_NODE_ID,
                body: DeclareBody::DeclareToken(
                    DeclareToken { id, wire_expr: WireExpr::Best(res) },
                ),
            },
            res,
        }
    }

    pub fn answer_interest(
        face: FaceId,
        id: TokenId,
        res: ResourceId,
        interest_id: InterestId,
    ) -> (m: RoutedDeclare)
        ensures
            m == RoutedDeclare::answers_interest(face, id, res, interest_id),
    {
        RoutedDeclare {
            face,
            msg: Declare {
                interest_id: Some(interest_id),
                ext_qos: QoSType::Default,
                ext_nodeid: DEFAULT_NODE_ID,
                body: DeclareBody::DeclareToken(
                    DeclareToken { id, wire_expr: WireExpr::Best(res) },
                ),
            },
            res,
        }
    }

    /// The token on `res` declared on `face` under `id` is gone. `wire_expr` tells the remote
    /// end which token is meant where it never learned of `id`.
    pub open spec fn undeclares_token(
        face: FaceId,
        id: TokenId,
        res: ResourceId,
        wire_expr: WireExpr,
    ) -> RoutedDeclare {
        RoutedDeclare {
            face,
            msg: Declare {
                interest_id: None,
                ext_qos: QoSType::Declare,
                ext_nodeid: DEFAULT_NODE_ID,
                body: DeclareBody::UndeclareToken(UndeclareToken { id, ext_wire_expr: wire_expr }),
            },
            res,
        }
    }

    pub fn undeclare_token(
        face: FaceId,
        id: TokenId,
        res: ResourceId,
        wire_expr: WireExpr,
    ) -> (m: RoutedDeclare)
        ensures
            m == RoutedDeclare::undeclares_token(face, id, res, wire_expr),
    {
        RoutedDeclare {
            face,
            msg: Declare {
                interest_id: None,
                ext_qos: QoSType::Declare,
                ext_nodeid: DEFAULT_NODE_ID,
                body: DeclareBody::UndeclareToken(UndeclareToken { id, ext_wire_expr: wire_expr }),
            },
            res,
        }
    }
}

} // verus!
