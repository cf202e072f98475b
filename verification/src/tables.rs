//! The routing tables: the faces of a node, the resources they speak of, and what each face
//! knows about tokens.

use vstd::prelude::*;

use crate::dict::{
    has_key, lemma_key_pos, lemma_put, lemma_removed, lookup, put, removed, unique_keys, Dict,
};

verus! {

/// A face, named by its slot in `Tables::faces`.
pub type FaceId = usize;

/// A resource, named by its slot in `Tables::resources`.
pub type ResourceId = usize;

/// The number under which a token is declared on one face.
pub type TokenId = u32;

/// The number of an interest on one face.
pub type InterestId = u32;

/// The number of a node in a linked-state network.
pub type NodeId = u16;

/// The node id of a declaration that does not come from a linked-state network.
pub const DEFAULT_NODE_ID: NodeId = 0;

/// The interest that a freshly connected peer answers without having received it.
pub const INITIAL_INTEREST_ID: InterestId = 0;

/// The identity of a node.
#[derive(Clone, Copy, PartialEq, Eq, Structural, Debug)]
pub struct ZenohId {
    pub value: u128,
}

/// The role of a node.
#[derive(Clone, Copy, PartialEq, Eq, Structural, Debug)]
pub enum WhatAmI {
    Router,
    Peer,
    Client,
}

/// Which declarations an interest asks for: the present ones, the ones to come, both or none.
#[derive(Clone, Copy, PartialEq, Eq, Structural, Debug)]
pub enum InterestMode {
    Final,
    Current,
    Future,
    CurrentFuture,
}

impl InterestMode {
    pub open spec fn wants_current(self) -> bool {
        self == InterestMode::Current || self == InterestMode::CurrentFuture
    }

    pub open spec fn wants_future(self) -> bool {
        self == InterestMode::Future || self == InterestMode::CurrentFuture
    }

    /// Declarations that exist already are asked for.
    pub fn current(self) -> (r: bool)
        ensures
            r == self.wants_current(),
    {
        self == InterestMode::Current || self == InterestMode::CurrentFuture
    }

    /// Declarations to come are asked for.
    pub fn future(self) -> (r: bool)
        ensures
            r == self.wants_future(),
    {
        self == InterestMode::Future || self == InterestMode::CurrentFuture
    }
}

/// What an interest is about: whether tokens are asked for, and whether one declaration on the
/// interest's own resource stands for all that match it.
#[derive(Clone, Copy, PartialEq, Eq, Structural, Debug)]
pub struct InterestOptions {
    pub tokens: bool,
    pub aggregate: bool,
}

/// An interest received on a face. Without a resource it is about every resource.
#[derive(Clone, Copy, PartialEq, Eq, Structural, Debug)]
pub struct RemoteInterest {
    pub res: Option<ResourceId>,
    pub options: InterestOptions,
    pub mode: InterestMode,
}

/// An interest that was forwarded on a face on behalf of `src_face` and is still being answered.
#[derive(Clone, Copy, PartialEq, Eq, Structural, Debug)]
pub struct CurrentInterest {
    pub src_face: FaceId,
    pub src_interest_id: InterestId,
    pub mode: InterestMode,
}

/// What a resource records about one face.
#[derive(Clone, Copy, PartialEq, Eq, Structural, Debug)]
pub struct SessionContext {
    /// The face declared a token on the resource.
    pub token: bool,
}

/// One connection of the node.
pub struct FaceState {
    pub zid: ZenohId,
    pub whatami: WhatAmI,
    /// The routing tables list this face. A face that was closed keeps its slot unlisted.
    pub listed: bool,
    /// The next number to hand out for a declaration on this face.
    pub next_id: u32,
    /// The interests received on this face.
    pub remote_interests: Dict<InterestId, RemoteInterest>,
    /// The tokens declared on this face by this node.
    pub local_tokens: Dict<ResourceId, TokenId>,
    /// The tokens declared on this face by its remote end.
    pub remote_tokens: Dict<TokenId, ResourceId>,
    /// The interests forwarded on this face that are still being answered.
    pub pending_current_interests: Dict<InterestId, CurrentInterest>,
    /// The interests sent on this face.
    pub local_interests: Vec<InterestId>,
}

/// A key expression that the node knows.
pub struct Resource {
    pub expr: String,
    /// The resources that this one matches, once matching was computed for it.
    pub context: Option<Vec<ResourceId>>,
    pub session_ctxs: Dict<FaceId, SessionContext>,
}

/// Everything the node routes by.
pub struct Tables {
    pub zid: ZenohId,
    pub faces: Vec<FaceState>,
    pub resources: Vec<Resource>,
}

/// What a `FaceState` holds.
#[verifier::ext_equal]
pub struct FaceView {
    pub zid: ZenohId,
    pub whatami: WhatAmI,
    pub listed: bool,
    pub next_id: u32,
    pub remote_interests: Seq<(InterestId, RemoteInterest)>,
    pub local_tokens: Seq<(ResourceId, TokenId)>,
    pub remote_tokens: Seq<(TokenId, ResourceId)>,
    pub pending_current_interests: Seq<(InterestId, CurrentInterest)>,
    pub local_interests: Seq<InterestId>,
}

/// What a `Resource` holds.
#[verifier::ext_equal]
pub struct ResourceView {
    pub expr: Seq<char>,
    pub context: Option<Seq<ResourceId>>,
    pub session_ctxs: Seq<(FaceId, SessionContext)>,
}

/// What `Tables` hold.
#[verifier::ext_equal]
pub struct TablesView {
    pub zid: ZenohId,
    pub faces: Seq<FaceView>,
    pub resources: Seq<ResourceView>,
}

impl View for FaceState {
    type V = FaceView;

    open spec fn view(&self) -> FaceView {
        FaceView {
            zid: self.zid,
            whatami: self.whatami,
            listed: self.listed,
            next_id: self.next_id,
            remote_interests: self.remote_interests@,
            local_tokens: self.local_tokens@,
            remote_tokens: self.remote_tokens@,
            pending_current_interests: self.pending_current_interests@,
            local_interests: self.local_interests@,
        }
    }
}

impl View for Resource {
    type V = ResourceView;

    open spec fn view(&self) -> ResourceView {
        ResourceView {
            expr: self.expr@,
            context: match self.context {
                Some(matches) => Some(matches@),
                None => None,
            },
            session_ctxs: self.session_ctxs@,
        }
    }
}

impl View for Tables {
    type V = TablesView;

    open spec fn view(&self) -> TablesView {
        TablesView {
            zid: self.zid,
            faces: self.faces@.map_values(|f: FaceState| f@),
            resources: self.resources@.map_values(|r: Resource| r@),
        }
    }
}

/// The number handed out after `id`; numbers start over once they are used up.
pub open spec fn next_number(id: u32) -> u32 {
    if id == u32::MAX {
        0
    } else {
        (id + 1) as u32
    }
}

impl FaceView {
    /// A declaration on this face took the next number.
    pub open spec fn with_number_taken(self) -> FaceView {
        FaceView { next_id: next_number(self.next_id), ..self }
    }

    /// A token on `res` was declared on this face under the next number.
    pub open spec fn with_token(self, res: ResourceId) -> FaceView {
        FaceView {
            next_id: next_number(self.next_id),
            local_tokens: put(self.local_tokens, res, self.next_id),
            ..self
        }
    }

    /// The token on `res` is no longer declared on this face.
    pub open spec fn without_token(self, res: ResourceId) -> FaceView {
        FaceView { local_tokens: removed(self.local_tokens, res), ..self }
    }

    /// The remote end declared a token on `res` under `id`.
    pub open spec fn with_remote_token(self, id: TokenId, res: ResourceId) -> FaceView {
        FaceView { remote_tokens: put(self.remote_tokens, id, res), ..self }
    }

    /// The remote end holds no token under `id`.
    pub open spec fn without_remote_token(self, id: TokenId) -> FaceView {
        FaceView { remote_tokens: removed(self.remote_tokens, id), ..self }
    }

    /// The remote end declared a token on `res`, under any number.
    pub open spec fn holds_remote_token(self, res: ResourceId) -> bool {
        exists|i: int| 0 <= i < self.remote_tokens.len() && (#[trigger] self.remote_tokens[i]).1 == res
    }
}

impl TablesView {
    pub open spec fn has_face(self, face: FaceId) -> bool {
        face < self.faces.len()
    }

    pub open spec fn has_resource(self, res: ResourceId) -> bool {
        res < self.resources.len()
    }

    /// Matching was computed for `res`.
    pub open spec fn has_context(self, res: ResourceId) -> bool {
        self.resources[res as int].context is Some
    }

    /// `res` matches `other`.
    pub open spec fn matches(self, res: ResourceId, other: ResourceId) -> bool {
        self.has_context(res) && self.resources[res as int].context->0.contains(other)
    }

    pub open spec fn is_client(self, face: FaceId) -> bool {
        self.faces[face as int].whatami == WhatAmI::Client
    }

    /// `face` leads to this very node.
    pub open spec fn is_local(self, face: FaceId) -> bool {
        self.faces[face as int].zid == self.zid
    }

    /// `face` declared a token on `res`.
    pub open spec fn declares(self, res: ResourceId, face: FaceId) -> bool {
        lookup(self.resources[res as int].session_ctxs, face) matches Some(ctx) && ctx.token
    }

    pub open spec fn with_face(self, face: FaceId, state: FaceView) -> TablesView {
        TablesView { faces: self.faces.update(face as int, state), ..self }
    }

    /// What `res` records about `face` is `ctx`.
    pub open spec fn with_ctx(
        self,
        res: ResourceId,
        face: FaceId,
        ctx: SessionContext,
    ) -> TablesView {
        let r = self.resources[res as int];
        TablesView {
            resources: self.resources.update(
                res as int,
                ResourceView { session_ctxs: put(r.session_ctxs, face, ctx), ..r },
            ),
            ..self
        }
    }

    /// Every handle inside `f` names something, and nothing is bound twice.
    pub open spec fn face_wf(self, f: FaceView) -> bool {
        &&& unique_keys(f.remote_interests)
        &&& unique_keys(f.local_tokens)
        &&& unique_keys(f.remote_tokens)
        &&& unique_keys(f.pending_current_interests)
        &&& forall|i: int|
            0 <= i < f.remote_interests.len() ==> self.interest_wf(
                (#[trigger] f.remote_interests[i]).1,
            )
        &&& forall|i: int|
            0 <= i < f.local_tokens.len() ==> self.has_resource((#[trigger] f.local_tokens[i]).0)
        &&& forall|i: int|
            0 <= i < f.remote_tokens.len() ==> self.has_resource((#[trigger] f.remote_tokens[i]).1)
        &&& forall|i: int|
            0 <= i < f.pending_current_interests.len() ==> self.has_face(
                (#[trigger] f.pending_current_interests[i]).1.src_face,
            )
    }

    /// An interest in tokens on some resource comes with the matches of that resource.
    pub open spec fn interest_wf(self, i: RemoteInterest) -> bool {
        i.res matches Some(r) ==> self.has_resource(r) && (i.options.tokens ==> self.has_context(r))
    }

    pub open spec fn resource_wf(self, r: ResourceView) -> bool {
        &&& unique_keys(r.session_ctxs)
        &&& forall|i: int|
            0 <= i < r.session_ctxs.len() ==> self.has_face((#[trigger] r.session_ctxs[i]).0)
        &&& r.context matches Some(m) ==> forall|i: int|
            0 <= i < m.len() ==> self.has_resource(#[trigger] m[i])
    }

    /// A key expression belongs to one resource only.
    pub open spec fn exprs_differ(self) -> bool {
        forall|i: int, j: int|
            0 <= i < j < self.resources.len() ==> #[trigger] self.resources[i].expr
                != #[trigger] self.resources[j].expr
    }

    /// The tables are in order.
    pub open spec fn wf(self) -> bool {
        &&& self.faces.len() <= usize::MAX
        &&& self.resources.len() <= usize::MAX
        &&& forall|i: int| 0 <= i < self.faces.len() ==> self.face_wf(#[trigger] self.faces[i])
        &&& forall|i: int|
            0 <= i < self.resources.len() ==> self.resource_wf(#[trigger] self.resources[i])
        &&& self.exprs_differ()
    }

    /// Matching was computed for every resource on which `face` has a token of this node.
    pub open spec fn local_tokens_matched(self, face: FaceId) -> bool {
        let tokens = self.faces[face as int].local_tokens;
        forall|i: int| 0 <= i < tokens.len() ==> self.has_context((#[trigger] tokens[i]).0)
    }

    /// The same, the token on `res` excepted.
    pub open spec fn local_tokens_matched_but(self, face: FaceId, res: ResourceId) -> bool {
        let tokens = self.faces[face as int].local_tokens;
        forall|i: int|
            0 <= i < tokens.len() ==> (#[trigger] tokens[i]).0 == res || self.has_context(
                tokens[i].0,
            )
    }

    /// `other` differs from these tables in nothing but the tokens and numbers of its faces.
    pub open spec fn same_network(self, other: TablesView) -> bool {
        &&& self.zid == other.zid
        &&& self.resources == other.resources
        &&& self.faces.len() == other.faces.len()
        &&& forall|i: int|
            0 <= i < self.faces.len() ==> (#[trigger] self.faces[i]).zid == other.faces[i].zid
                && self.faces[i].whatami == other.faces[i].whatami && self.faces[i].listed
                == other.faces[i].listed
    }
}

/// Replacing the state of one face by one that is in order keeps the tables in order.
pub proof fn lemma_with_face_wf(t: TablesView, face: FaceId, f: FaceView)
    requires
        t.wf(),
        t.has_face(face),
        t.face_wf(f),
    ensures
        t.with_face(face, f).wf(),
{
    let u = t.with_face(face, f);
    assert forall|i: int| 0 <= i < u.faces.len() implies u.face_wf(#[trigger] u.faces[i]) by {
        assert(t.face_wf(t.faces[i]));
        let g = u.faces[i];
        assert(t.face_wf(g));
        assert forall|j: int| 0 <= j < g.remote_interests.len() implies u.interest_wf(
            (#[trigger] g.remote_interests[j]).1,
        ) by {
            assert(t.interest_wf(g.remote_interests[j].1));
        }
    }
    assert forall|i: int| 0 <= i < u.resources.len() implies u.resource_wf(
        #[trigger] u.resources[i],
    ) by {
        assert(t.resource_wf(t.resources[i]));
    }
}

/// Recording something about a face on a resource keeps the tables in order.
pub proof fn lemma_with_ctx_wf(t: TablesView, res: ResourceId, face: FaceId, ctx: SessionContext)
    requires
        t.wf(),
        t.has_resource(res),
        t.has_face(face),
    ensures
        t.with_ctx(res, face, ctx).wf(),
{
    let u = t.with_ctx(res, face, ctx);
    let s = t.resources[res as int].session_ctxs;
    assert(t.resource_wf(t.resources[res as int]));
    lemma_put(s, face, ctx);
    if has_key(s, face) {
        lemma_key_pos(s, face);
    }
    assert forall|i: int| 0 <= i < u.faces.len() implies u.face_wf(#[trigger] u.faces[i]) by {
        assert(t.face_wf(t.faces[i]));
        let g = u.faces[i];
        assert forall|j: int| 0 <= j < g.remote_interests.len() implies u.interest_wf(
            (#[trigger] g.remote_interests[j]).1,
        ) by {
            assert(t.interest_wf(g.remote_interests[j].1));
        }
    }
    assert forall|i: int| 0 <= i < u.resources.len() implies u.resource_wf(
        #[trigger] u.resources[i],
    ) by {
        assert(t.resource_wf(t.resources[i]));
    }
}

/// Taking a number for a token on a known resource keeps a face in order.
pub proof fn lemma_with_token_wf(t: TablesView, f: FaceView, res: ResourceId)
    requires
        t.face_wf(f),
        t.has_resource(res),
    ensures
        t.face_wf(f.with_token(res)),
{
    lemma_put(f.local_tokens, res, f.next_id);
    if has_key(f.local_tokens, res) {
        lemma_key_pos(f.local_tokens, res);
    }
}

/// Dropping a token keeps a face in order.
pub proof fn lemma_without_token_wf(t: TablesView, f: FaceView, res: ResourceId)
    requires
        t.face_wf(f),
    ensures
        t.face_wf(f.without_token(res)),
{
    lemma_removed(f.local_tokens, res);
    if has_key(f.local_tokens, res) {
        lemma_key_pos(f.local_tokens, res);
    }
}

/// Registering a remote token on a known resource keeps a face in order.
pub proof fn lemma_with_remote_token_wf(t: TablesView, f: FaceView, id: TokenId, res: ResourceId)
    requires
        t.face_wf(f),
        t.has_resource(res),
    ensures
        t.face_wf(f.with_remote_token(id, res)),
{
    lemma_put(f.remote_tokens, id, res);
    if has_key(f.remote_tokens, id) {
        lemma_key_pos(f.remote_tokens, id);
    }
}

/// Forgetting a remote token keeps a face in order.
pub proof fn lemma_without_remote_token_wf(t: TablesView, f: FaceView, id: TokenId)
    requires
        t.face_wf(f),
    ensures
        t.face_wf(f.without_remote_token(id)),
{
    lemma_removed(f.remote_tokens, id);
    if has_key(f.remote_tokens, id) {
        lemma_key_pos(f.remote_tokens, id);
    }
}

impl Resource {
    /// The key expression of the resource.
    pub fn expr(&self) -> (r: &str)
        ensures
            r@ == self@.expr,
    {
        self.expr.as_str()
    }

    /// `other` is among the resources that this one matches.
    pub fn matches(&self, other: ResourceId) -> (r: bool)
        requires
            self@.context is Some,
        ensures
            r == self@.context->0.contains(other),
    {
        match &self.context {
            Some(m) => {
                for i in 0..m.len()
                    invariant
                        self@.context == Some(m@),
                        forall|j: int| 0 <= j < i ==> m@[j] != other,
                {
                    if m[i] == other {
                        assert(m@.contains(other));
                        return true;
                    }
                }
                false
            },
            None => false,
        }
    }
}

/// Tables that know more faces and resources are in order if what was added is.
proof fn lemma_grown_wf(t: TablesView, u: TablesView)
    requires
        t.wf(),
        u.faces.len() <= usize::MAX,
        u.resources.len() <= usize::MAX,
        t.faces.is_prefix_of(u.faces),
        t.resources.is_prefix_of(u.resources),
        forall|i: int| t.faces.len() <= i < u.faces.len() ==> u.face_wf(#[trigger] u.faces[i]),
        forall|i: int|
            t.resources.len() <= i < u.resources.len() ==> u.resource_wf(#[trigger] u.resources[i]),
        u.exprs_differ(),
    ensures
        u.wf(),
{
    assert forall|r: ResourceId| t.has_resource(r) implies u.has_resource(r)
        && #[trigger] u.has_context(r) == t.has_context(r) by {
        assert(u.resources[r as int] == t.resources[r as int]);
    }
    assert forall|i: int| 0 <= i < u.faces.len() implies u.face_wf(#[trigger] u.faces[i]) by {
        if i < t.faces.len() {
            let g = u.faces[i];
            assert(g == t.faces[i]);
            assert(t.face_wf(g));
            assert forall|j: int| 0 <= j < g.remote_interests.len() implies u.interest_wf(
                (#[trigger] g.remote_interests[j]).1,
            ) by {
                assert(t.interest_wf(g.remote_interests[j].1));
            }
        }
    }
    assert forall|i: int| 0 <= i < u.resources.len() implies u.resource_wf(
        #[trigger] u.resources[i],
    ) by {
        if i < t.resources.len() {
            assert(u.resources[i] == t.resources[i]);
            assert(t.resource_wf(t.resources[i]));
        }
    }
}

impl FaceView {
    /// A face on which nothing has happened yet.
    pub open spec fn fresh(zid: ZenohId, whatami: WhatAmI) -> FaceView {
        FaceView {
            zid,
            whatami,
            listed: true,
            next_id: 0,
            remote_interests: Seq::empty(),
            local_tokens: Seq::empty(),
            remote_tokens: Seq::empty(),
            pending_current_interests: Seq::empty(),
            local_interests: Seq::empty(),
        }
    }
}

impl Tables {
    /// The tables of a node that knows of nothing yet.
    pub fn new(zid: ZenohId) -> (t: Tables)
        ensures
            t@ == (TablesView { zid, faces: Seq::empty(), resources: Seq::empty() }),
            t@.wf(),
    {
        let t = Tables { zid, faces: Vec::new(), resources: Vec::new() };
        proof {
            assert(t@.faces =~= Seq::empty());
            assert(t@.resources =~= Seq::empty());
        }
        t
    }

    /// Lists a face to the node `zid`.
    pub fn open_face(&mut self, zid: ZenohId, whatami: WhatAmI) -> (face: FaceId)
        requires
            old(self)@.wf(),
            old(self)@.faces.len() < usize::MAX,
        ensures
            face == old(self)@.faces.len(),
            final(self)@ == (TablesView {
                faces: old(self)@.faces.push(FaceView::fresh(zid, whatami)),
                ..old(self)@
            }),
            final(self)@.wf(),
    {
        let ghost t = self@;
        let face = self.faces.len();
        self.faces.push(
            FaceState {
                zid,
                whatami,
                listed: true,
                next_id: 0,
                remote_interests: Dict::new(),
                local_tokens: Dict::new(),
                remote_tokens: Dict::new(),
                pending_current_interests: Dict::new(),
                local_interests: Vec::new(),
            },
        );
        proof {
            assert(self@.faces =~= t.faces.push(FaceView::fresh(zid, whatami)));
            lemma_grown_wf(t, self@);
        }
        face
    }

    /// The resource with the key expression `expr`, if there is one.
    pub fn get_resource(&self, expr: &str) -> (res: Option<ResourceId>)
        ensures
            match res {
                Some(r) => self@.has_resource(r) && self@.resources[r as int].expr == expr@,
                None => forall|i: int|
                    0 <= i < self@.resources.len() ==> (#[trigger] self@.resources[i]).expr
                        != expr@,
            },
    {
        let wanted = expr.to_owned();
        for r in 0..self.resources.len()
            invariant
                wanted@ == expr@,
                forall|i: int|
                    0 <= i < r ==> (#[trigger] self@.resources[i]).expr != expr@,
        {
            if self.resources[r].expr == wanted {
                return Some(r);
            }
        }
        None
    }

    /// Makes the key expression `expr`, which is not known yet, known with the resources that it
    /// matches if they were computed.
    pub fn add_resource(&mut self, expr: String, context: Option<Vec<ResourceId>>) -> (res:
        ResourceId)
        requires
            old(self)@.wf(),
            old(self)@.resources.len() < usize::MAX,
            context matches Some(m) ==> forall|i: int|
                0 <= i < m.len() ==> #[trigger] m@[i] <= old(self)@.resources.len(),
            forall|i: int|
                0 <= i < old(self)@.resources.len() ==> (#[trigger] old(
                    self,
                )@.resources[i]).expr != expr@,
        ensures
            res == old(self)@.resources.len(),
            final(self)@ == (TablesView {
                resources: old(self)@.resources.push(
                    ResourceView {
                        expr: expr@,
                        context: match context {
                            Some(m) => Some(m@),
                            None => None,
                        },
                        session_ctxs: Seq::empty(),
                    },
                ),
                ..old(self)@
            }),
            final(self)@.wf(),
    {
        let ghost t = self@;
        let res = self.resources.len();
        let resource = Resource { expr, context, session_ctxs: Dict::new() };
        let ghost r = resource@;
        self.resources.push(resource);
        proof {
            assert(self@.resources =~= t.resources.push(r));
            lemma_grown_wf(t, self@);
        }
        res
    }

    /// Takes the next number of `face`.
    pub fn take_number(&mut self, face: FaceId) -> (id: u32)
        requires
            old(self)@.has_face(face),
            old(self)@.wf(),
        ensures
            id == old(self)@.faces[face as int].next_id,
            final(self)@ == old(self)@.with_face(
                face,
                old(self)@.faces[face as int].with_number_taken(),
            ),
            final(self)@.wf(),
    {
        let ghost t = self@;
        let id = self.faces[face].next_id;
        self.faces[face].next_id = id.wrapping_add(1);
        proof {
            let f = t.faces[face as int].with_number_taken();
            assert(t.face_wf(t.faces[face as int]));
            assert(t.face_wf(f));
            lemma_with_face_wf(t, face, f);
            assert(self@ =~= t.with_face(face, f));
        }
        id
    }

    /// Binds a token on `res` to the next number of `face`.
    pub fn add_local_token(&mut self, face: FaceId, res: ResourceId) -> (id: TokenId)
        requires
            old(self)@.has_face(face),
            old(self)@.has_resource(res),
            old(self)@.wf(),
        ensures
            id == old(self)@.faces[face as int].next_id,
            final(self)@ == old(self)@.with_face(
                face,
                old(self)@.faces[face as int].with_token(res),
            ),
            final(self)@.wf(),
    {
        let ghost t = self@;
        let id = self.faces[face].next_id;
        self.faces[face].next_id = id.wrapping_add(1);
        self.faces[face].local_tokens.insert(res, id);
        proof {
            let f = t.faces[face as int].with_token(res);
            assert(t.face_wf(t.faces[face as int]));
            lemma_with_token_wf(t, t.faces[face as int], res);
            lemma_with_face_wf(t, face, f);
            assert(self@ =~= t.with_face(face, f));
        }
        id
    }

    /// Unbinds the token on `res` from `face`.
    pub fn remove_local_token(&mut self, face: FaceId, res: ResourceId) -> (id: Option<TokenId>)
        requires
            old(self)@.has_face(face),
            old(self)@.wf(),
        ensures
            id == lookup(old(self)@.faces[face as int].local_tokens, res),
            final(self)@ == old(self)@.with_face(
                face,
                old(self)@.faces[face as int].without_token(res),
            ),
            final(self)@.wf(),
    {
        let ghost t = self@;
        let id = self.faces[face].local_tokens.remove(res);
        proof {
            let f = t.faces[face as int].without_token(res);
            assert(t.face_wf(t.faces[face as int]));
            lemma_without_token_wf(t, t.faces[face as int], res);
            lemma_with_face_wf(t, face, f);
            assert(self@ =~= t.with_face(face, f));
        }
        id
    }

    /// Records that the remote end of `face` declared a token on `res` under `id`.
    pub fn add_remote_token(&mut self, face: FaceId, id: TokenId, res: ResourceId)
        requires
            old(self)@.has_face(face),
            old(self)@.has_resource(res),
            old(self)@.wf(),
        ensures
            final(self)@ == old(self)@.with_face(
                face,
                old(self)@.faces[face as int].with_remote_token(id, res),
            ),
            final(self)@.wf(),
    {
        let ghost t = self@;
        self.faces[face].remote_tokens.insert(id, res);
        proof {
            let f = t.faces[face as int].with_remote_token(id, res);
            assert(t.face_wf(t.faces[face as int]));
            lemma_with_remote_token_wf(t, t.faces[face as int], id, res);
            lemma_with_face_wf(t, face, f);
            assert(self@ =~= t.with_face(face, f));
        }
    }

    /// Drops what the remote end of `face` declared under `id`.
    pub fn remove_remote_token(&mut self, face: FaceId, id: TokenId) -> (res: Option<ResourceId>)
        requires
            old(self)@.has_face(face),
            old(self)@.wf(),
        ensures
            res == lookup(old(self)@.faces[face as int].remote_tokens, id),
            final(self)@ == old(self)@.with_face(
                face,
                old(self)@.faces[face as int].without_remote_token(id),
            ),
            final(self)@.wf(),
    {
        let ghost t = self@;
        let res = self.faces[face].remote_tokens.remove(id);
        proof {
            let f = t.faces[face as int].without_remote_token(id);
            assert(t.face_wf(t.faces[face as int]));
            lemma_without_remote_token_wf(t, t.faces[face as int], id);
            lemma_with_face_wf(t, face, f);
            assert(self@ =~= t.with_face(face, f));
        }
        res
    }

    /// Records on `res` whether `face` declared a token.
    pub fn set_token(&mut self, res: ResourceId, face: FaceId, token: bool)
        requires
            old(self)@.has_face(face),
            old(self)@.has_resource(res),
            old(self)@.wf(),
        ensures
            final(self)@ == old(self)@.with_ctx(res, face, SessionContext { token }),
            final(self)@.wf(),
    {
        let ghost t = self@;
        self.resources[res].session_ctxs.insert(face, SessionContext { token });
        proof {
            lemma_with_ctx_wf(t, res, face, SessionContext { token });
            assert(self@ =~= t.with_ctx(res, face, SessionContext { token }));
        }
    }
}

/// A face on which nothing has happened is listed, starts its numbers at zero and holds nothing.
pub proof fn law_fresh_face_holds_nothing(zid: ZenohId, whatami: WhatAmI)
    ensures
        ({
            let f = FaceView::fresh(zid, whatami);
            &&& f.zid == zid
            &&& f.whatami == whatami
            &&& f.listed
            &&& f.next_id == 0
            &&& f.remote_interests.len() == 0
            &&& f.local_tokens.len() == 0
            &&& f.remote_tokens.len() == 0
            &&& f.pending_current_interests.len() == 0
            &&& f.local_interests.len() == 0
        }),
{
}

/// What tables are taken to hold is what their faces and resources hold, field by field.
pub proof fn law_view_shows_what_is_there(t: Tables)
    ensures
        t@.zid == t.zid,
        t@.faces.len() == t.faces@.len(),
        t@.resources.len() == t.resources@.len(),
        forall|i: int|
            0 <= i < t.faces@.len() ==> {
                let f = t.faces@[i];
                &&& (#[trigger] t@.faces[i]).zid == f.zid
                &&& t@.faces[i].whatami == f.whatami
                &&& t@.faces[i].listed == f.listed
                &&& t@.faces[i].next_id == f.next_id
                &&& t@.faces[i].remote_interests == f.remote_interests.entries@
                &&& t@.faces[i].local_tokens == f.local_tokens.entries@
                &&& t@.faces[i].remote_tokens == f.remote_tokens.entries@
                &&& t@.faces[i].pending_current_interests == f.pending_current_interests.entries@
                &&& t@.faces[i].local_interests == f.local_interests@
            },
        forall|i: int|
            0 <= i < t.resources@.len() ==> {
                let r = t.resources@[i];
                &&& (#[trigger] t@.resources[i]).expr == r.expr@
                &&& t@.resources[i].session_ctxs == r.session_ctxs.entries@
                &&& t@.resources[i].context is Some == r.context is Some
                &&& r.context is Some ==> t@.resources[i].context->0 == r.context->0@
            },
{
}

/// Taking a number hands out the next one and leads to the one behind it, starting over behind
/// the last one; a token that is declared gets the number and is kept with it.
pub proof fn law_numbers_follow_each_other(f: FaceView, res: ResourceId)
    ensures
        f.with_number_taken().next_id == (f.next_id + 1) % 0x1_0000_0000,
        f.with_number_taken().local_tokens == f.local_tokens,
        f.with_token(res).next_id == (f.next_id + 1) % 0x1_0000_0000,
        lookup(f.with_token(res).local_tokens, res) == Some(f.next_id)
            || !unique_keys(f.local_tokens),
{
    if unique_keys(f.local_tokens) {
        lemma_put(f.local_tokens, res, f.next_id);
    }
}

/// Present tokens are asked for by `Current` and `CurrentFuture`, those to come by `Future` and
/// `CurrentFuture`, and by no other mode.
pub proof fn law_modes_ask_for_what_they_say(mode: InterestMode)
    ensures
        mode.wants_current() <==> mode == InterestMode::Current || mode
            == InterestMode::CurrentFuture,
        mode.wants_future() <==> mode == InterestMode::Future || mode
            == InterestMode::CurrentFuture,
{
}

} // verus!
