use vstd::prelude::*;

use crate::storage::{Storage, ID};

verus! {

/// The IEEE-754 bit patterns of a two-dimensional `f32` vector.
///
/// The graph never computes with coordinates; it stores them and hands them
/// back, so it holds their exact bits (`f32::to_bits`).
#[derive(Clone, Copy, PartialEq, Eq, Debug, Structural)]
pub struct Vec2Bits {
    pub x: u32,
    pub y: u32,
}

/// A value in a node's state: a float (held as its `f32` bit pattern), a
/// character or a string.
pub enum StateValue {
    Float(u32),
    Char(char),
    String(String),
}

impl Clone for StateValue {
    /// An equal copy of the value.
    fn clone(&self) -> (r: Self)
        ensures
            r == *self,
    {
        match self {
            StateValue::Float(f) => StateValue::Float(*f),
            StateValue::Char(c) => StateValue::Char(*c),
            StateValue::String(s) => StateValue::String(s.clone()),
        }
    }
}

/// The map that inserting `pairs` one after another into an empty map gives.
pub open spec fn map_of_pairs(pairs: Seq<(String, StateValue)>) -> Map<Seq<char>, StateValue>
    decreases pairs.len(),
{
    if pairs.len() == 0 {
        Map::empty()
    } else {
        map_of_pairs(pairs.drop_last()).insert(pairs.last().0@, pairs.last().1)
    }
}

/// A node's named state values, each name at most once.
pub struct StateMap {
    entries: Vec<(String, StateValue)>,
}

impl StateMap {
    spec fn has_key_at(&self, k: Seq<char>, i: int) -> bool {
        0 <= i < self.entries@.len() && self.entries@[i].0@ == k
    }

    /// The values by name (a name is viewed as its characters).
    pub closed spec fn view(&self) -> Map<Seq<char>, StateValue> {
        Map::new(
            |k: Seq<char>| exists|i: int| self.has_key_at(k, i),
            |k: Seq<char>| self.entries@[choose|i: int| self.has_key_at(k, i)].1,
        )
    }

    /// The names, in the order they were first inserted.
    pub closed spec fn names(&self) -> Seq<Seq<char>> {
        self.entries@.map_values(|e: (String, StateValue)| e.0@)
    }

    /// No name occurs twice.
    pub closed spec fn wf(&self) -> bool {
        forall|i: int, j: int|
            0 <= i < self.entries@.len() && 0 <= j < self.entries@.len() && #[trigger] self.entries@[i].0@
                == #[trigger] self.entries@[j].0@ ==> i == j
    }

    proof fn lemma_lookup(&self, i: int)
        requires
            self.wf(),
            0 <= i < self.entries@.len(),
        ensures
            self@.contains_key(self.entries@[i].0@),
            self@[self.entries@[i].0@] == self.entries@[i].1,
    {
        let k = self.entries@[i].0@;
        assert(self.has_key_at(k, i));
        let j = choose|j: int| self.has_key_at(k, j);
        assert(self.entries@[j].0@ == self.entries@[i].0@);
    }

    /// An empty map.
    pub fn new() -> (r: Self)
        ensures
            r.wf(),
            r@ == Map::<Seq<char>, StateValue>::empty(),
    {
        let r = StateMap { entries: Vec::new() };
        assert(r@ =~= Map::<Seq<char>, StateValue>::empty());
        r
    }

    fn find(&self, name: &str) -> (r: Option<usize>)
        requires
            self.wf(),
        ensures
            match r {
                Some(i) => i < self.entries@.len() && self.entries@[i as int].0@ == name@,
                None => !self@.contains_key(name@),
            },
    {
        let key = name.to_owned();
        let mut i: usize = 0;
        while i < self.entries.len()
            invariant
                i <= self.entries@.len(),
                key@ == name@,
                forall|j: int| 0 <= j < i ==> self.entries@[j].0@ != name@,
            decreases self.entries@.len() - i,
        {
            if self.entries[i].0 == key {
                return Some(i);
            }
            i = i + 1;
        }
        proof {
            if self@.contains_key(name@) {
                let j = choose|j: int| self.has_key_at(name@, j);
                assert(self.entries@[j].0@ == name@);
            }
        }
        None
    }

    /// The value stored under `name`, if any.
    pub fn get(&self, name: &str) -> (r: Option<&StateValue>)
        requires
            self.wf(),
        ensures
            match r {
                Some(v) => self@.contains_key(name@) && *v == self@[name@],
                None => !self@.contains_key(name@),
            },
    {
        match self.find(name) {
            Some(i) => {
                proof {
                    self.lemma_lookup(i as int);
                }
                Some(&self.entries[i].1)
            },
            None => None,
        }
    }

    /// Stores `value` under `name`, replacing what was there.
    pub fn insert(&mut self, name: String, value: StateValue)
        requires
            old(self).wf(),
        ensures
            final(self).wf(),
            final(self)@ == old(self)@.insert(name@, value),
    {
        let ghost pre = *self;
        let ghost k = name@;
        match self.find(name.as_str()) {
            Some(i) => {
                self.entries.set(i, (name, value));
                proof {
                    assert forall|j: int| 0 <= j < pre.entries@.len() && j != i implies pre.entries@[j].0@ != k by {
                        assert(pre.entries@[j].0@ != pre.entries@[i as int].0@);
                    }
                    Self::lemma_placed(pre, *self, k, value, i as int);
                }
            },
            None => {
                self.entries.push((name, value));
                proof {
                    assert forall|j: int| 0 <= j < pre.entries@.len() implies pre.entries@[j].0@ != k by {
                        assert(!pre.has_key_at(k, j));
                    }
                    Self::lemma_placed(pre, *self, k, value, pre.entries@.len() as int);
                }
            },
        }
    }

    /// Putting `(k, value)` at slot `at`, over the pair with name `k` or past
    /// the end when no pair has that name, gives the map with `k` set to `value`.
    proof fn lemma_placed(pre: Self, post: Self, k: Seq<char>, value: StateValue, at: int)
        requires
            pre.wf(),
            0 <= at < post.entries@.len(),
            post.entries@.len() == pre.entries@.len() || (post.entries@.len() == pre.entries@.len() + 1
                && at == pre.entries@.len()),
            post.entries@[at].0@ == k,
            post.entries@[at].1 == value,
            at < pre.entries@.len() ==> pre.entries@[at].0@ == k,
            forall|j: int| 0 <= j < post.entries@.len() && j != at ==> post.entries@[j] == pre.entries@[j],
            forall|j: int| 0 <= j < pre.entries@.len() && j != at ==> pre.entries@[j].0@ != k,
        ensures
            post.wf(),
            post@ == pre@.insert(k, value),
    {
        assert forall|a: int, b: int|
            0 <= a < post.entries@.len() && 0 <= b < post.entries@.len()
                && #[trigger] post.entries@[a].0@ == #[trigger] post.entries@[b].0@ implies a == b by {
            if a != at && b != at {
                assert(pre.entries@[a].0@ == post.entries@[a].0@);
                assert(pre.entries@[b].0@ == post.entries@[b].0@);
            }
        }
        assert forall|x: Seq<char>| #[trigger] post@.contains_key(x) <==> pre@.insert(k, value).contains_key(x) by {
            if post@.contains_key(x) {
                let j = choose|j: int| post.has_key_at(x, j);
                if j != at {
                    assert(pre.has_key_at(x, j));
                }
            }
            if pre@.contains_key(x) {
                let j = choose|j: int| pre.has_key_at(x, j);
                if j != at {
                    assert(post.has_key_at(x, j));
                } else {
                    assert(x == k);
                }
            }
            if x == k {
                assert(post.has_key_at(x, at));
            }
        }
        assert forall|x: Seq<char>| #[trigger] post@.contains_key(x) implies post@[x] == pre@.insert(k, value)[x] by {
            let j = choose|j: int| post.has_key_at(x, j);
            post.lemma_lookup(j);
            if x != k {
                pre.lemma_lookup(j);
            }
        }
        assert(post@ =~= pre@.insert(k, value));
    }
    /// A mutable reference to the value stored under `name`, if any; the
    /// names stay as they were.
    pub fn get_mut(&mut self, name: &str) -> (r: Option<&mut StateValue>)
        requires
            old(self).wf(),
        ensures
            r is Some <==> old(self)@.contains_key(name@),
            r is Some ==> *r->0 == old(self)@[name@] && final(self).wf()
                && final(self)@ =~= old(self)@.insert(name@, *final(r->0)),
            r is None ==> *final(self) == *old(self),
    {
        match self.find(name) {
            Some(i) => {
                proof {
                    self.lemma_lookup(i as int);
                    Self::lemma_value_replaced(*self, i as int);
                }
                Some(&mut self.entries[i].1)
            },
            None => None,
        }
    }
    /// A map holding `pairs`, inserted in order, so that a later pair replaces
    /// an earlier one with the same name.
    pub fn from_pairs(pairs: Vec<(String, StateValue)>) -> (r: Self)
        ensures
            r.wf(),
            r@ == map_of_pairs(pairs@),
    {
        let mut r = StateMap::new();
        let mut pairs = pairs;
        let ghost all = pairs@;
        let mut rest: Vec<(String, StateValue)> = Vec::new();
        // Take the pairs off the back, then insert them front to back.
        while pairs.len() > 0
            invariant
                pairs@ + rest@.reverse() == all,
            decreases pairs@.len(),
        {
            let p = pairs.pop().unwrap();
            proof {
                assert(pairs@.push(p) + rest@.reverse() =~= pairs@ + rest@.push(p).reverse());
            }
            rest.push(p);
        }
        assert(rest@.reverse() =~= all);
        let ghost mut done: Seq<(String, StateValue)> = Seq::empty();
        while rest.len() > 0
            invariant
                r.wf(),
                r@ == map_of_pairs(done),
                done + rest@.reverse() == all,
            decreases rest@.len(),
        {
            let (name, value) = rest.pop().unwrap();
            proof {
                let p = (name, value);
                assert(done.push(p) + rest@.reverse() =~= done + rest@.push(p).reverse());
                assert(done.push(p).drop_last() =~= done);
                done = done.push(p);
            }
            r.insert(name, value);
        }
        assert(done =~= all);
        r
    }

    proof fn lemma_value_replaced(pre: Self, i: int)
        requires
            pre.wf(),
            0 <= i < pre.entries@.len(),
        ensures
            forall|post: Self|
                #![trigger post@]
                #![trigger post.wf()]
                Self::same_names_except_value_at(pre, post, i) ==> post.wf() && post@ =~= pre@.insert(
                    pre.entries@[i].0@,
                    post.entries@[i].1,
                ),
    {
        let k = pre.entries@[i].0@;
        assert forall|post: Self| Self::same_names_except_value_at(pre, post, i) implies post.wf()
            && post@ =~= pre@.insert(k, post.entries@[i].1) by {
            let w = post.entries@[i].1;
            assert forall|a: int, b: int|
                0 <= a < post.entries@.len() && 0 <= b < post.entries@.len()
                    && #[trigger] post.entries@[a].0@ == #[trigger] post.entries@[b].0@ implies a == b by {
                assert(pre.entries@[a].0@ == post.entries@[a].0@);
                assert(pre.entries@[b].0@ == post.entries@[b].0@);
            }
            assert forall|x: Seq<char>| #[trigger] post@.contains_key(x) <==> pre@.insert(k, w).contains_key(x) by {
                if post@.contains_key(x) {
                    let j = choose|j: int| post.has_key_at(x, j);
                    assert(pre.has_key_at(x, j));
                }
                if pre@.contains_key(x) {
                    let j = choose|j: int| pre.has_key_at(x, j);
                    assert(post.has_key_at(x, j));
                }
                if x == k {
                    assert(post.has_key_at(x, i));
                }
            }
            assert forall|x: Seq<char>| #[trigger] post@.contains_key(x) implies post@[x] == pre@.insert(k, w)[x] by {
                let j = choose|j: int| post.has_key_at(x, j);
                post.lemma_lookup(j);
                if x != k {
                    pre.lemma_lookup(j);
                }
            }
        }
    }

    spec fn same_names_except_value_at(pre: Self, post: Self, i: int) -> bool {
        &&& post.entries@.len() == pre.entries@.len()
        &&& post.entries@[i].0 == pre.entries@[i].0
        &&& forall|j: int| 0 <= j < pre.entries@.len() && j != i ==> post.entries@[j] == pre.entries@[j]
    }
}

impl Clone for StateMap {
    /// A copy holding the same names and values.
    fn clone(&self) -> (r: Self)
        ensures
            r.names() == self.names(),
            self.wf() ==> r.wf() && r@ == self@,
    {
        let mut entries: Vec<(String, StateValue)> = Vec::new();
        let mut i: usize = 0;
        while i < self.entries.len()
            invariant
                i <= self.entries@.len(),
                entries@.len() == i,
                forall|j: int| 0 <= j < i ==> #[trigger] entries@[j] == self.entries@[j],
            decreases self.entries@.len() - i,
        {
            let name = self.entries[i].0.clone();
            let value = self.entries[i].1.clone();
            entries.push((name, value));
            i = i + 1;
        }
        let r = StateMap { entries };
        proof {
            assert(r.entries@ =~= self.entries@);
            assert(r.names() =~= self.names());
            if self.wf() {
            assert forall|x: Seq<char>| #[trigger] r@.contains_key(x) <==> self@.contains_key(x) by {
                if r@.contains_key(x) {
                    let j = choose|j: int| r.has_key_at(x, j);
                    assert(self.has_key_at(x, j));
                }
                if self@.contains_key(x) {
                    let j = choose|j: int| self.has_key_at(x, j);
                    assert(r.has_key_at(x, j));
                }
            }
            assert forall|x: Seq<char>| #[trigger] r@.contains_key(x) implies r@[x] == self@[x] by {
                let j = choose|j: int| r.has_key_at(x, j);
                r.lemma_lookup(j);
                self.lemma_lookup(j);
            }
            assert(r@ =~= self@);
            }
        }
        r
    }

}

/// What kind of port a prototype describes: an input, or an output computed
/// by the evaluator `E`.
#[derive(Clone, Copy)]
pub enum PortKindPrototype<E> {
    Input,
    Output(E),
}

impl<E: Copy> PortKindPrototype<E> {
    /// The connection state a freshly made port of this kind starts in.
    pub open spec fn spec_instantiate(self) -> PortKind<E> {
        match self {
            PortKindPrototype::Input => PortKind::Input(None),
            PortKindPrototype::Output(f) => PortKind::Output(f),
        }
    }

    /// An unconnected input, or an output with the same evaluator.
    pub fn instantiate(&self) -> (r: PortKind<E>)
        ensures
            r == self.spec_instantiate(),
    {
        match self {
            PortKindPrototype::Input => PortKind::Input(None),
            PortKindPrototype::Output(f) => PortKind::Output(*f),
        }
    }
}

/// The connection state of a port: an input, possibly fed by an output port,
/// or an output with its evaluator.
#[derive(Clone, Copy)]
pub enum PortKind<E> {
    Input(Option<ID>),
    Output(E),
}

impl<E> PortKind<E> {
    /// Whether this is an input.
    pub fn is_input(&self) -> (r: bool)
        ensures
            r == (self is Input),
    {
        match self {
            PortKind::Input(_) => true,
            PortKind::Output(_) => false,
        }
    }

    /// Whether this is an output.
    pub fn is_output(&self) -> (r: bool)
        ensures
            r == (self is Output),
    {
        !self.is_input()
    }
}

/// How a node's port looks: where it sits on the node, its name and its kind.
pub struct PortPrototype<E> {
    pub local_position: Vec2Bits,
    pub name: String,
    pub kind: PortKindPrototype<E>,
}

impl<E: Copy> Clone for PortPrototype<E> {
    /// An equal copy.
    fn clone(&self) -> (r: Self)
        ensures
            r == *self,
    {
        PortPrototype { local_position: self.local_position, name: self.name.clone(), kind: self.kind }
    }
}

/// A port of a node in the world.
pub struct Port<E> {
    pub port_info: PortPrototype<E>,
    pub node: ID,
    pub connection_kind: PortKind<E>,
}

impl<E: Copy> Clone for Port<E> {
    /// An equal copy.
    fn clone(&self) -> (r: Self)
        ensures
            r == *self,
    {
        Port { port_info: self.port_info.clone(), node: self.node, connection_kind: self.connection_kind }
    }
}

/// A node's state values and, if it has one, the routine that draws them.
pub struct NodeState<R> {
    pub state: StateMap,
    pub render: Option<R>,
}

impl<R: Copy> Clone for NodeState<R> {
    /// A copy with the same values and the same drawing routine.
    fn clone(&self) -> (r: Self)
        ensures
            r.state.names() == self.state.names(),
            self.state.wf() ==> r.state.wf() && r.state@ == self.state@,
            r.render == self.render,
    {
        NodeState { state: self.state.clone(), render: self.render }
    }
}

impl<R> Default for NodeState<R> {
    /// No values and no drawing routine.
    fn default() -> (r: Self)
        ensures
            r.state.wf(),
            r.state@ == Map::<Seq<char>, StateValue>::empty(),
            r.render is None,
    {
        NodeState { state: StateMap::new(), render: None }
    }
}

/// Everything a kind of node is made from: its name, its ports, its initial
/// state and its size.
pub struct NodePrototype<E, R> {
    pub name: String,
    pub ports: Vec<PortPrototype<E>>,
    pub state_prototype: NodeState<R>,
    pub size: Vec2Bits,
}

/// `a` and `b` describe the same kind of node.
pub open spec fn same_prototype<E, R>(a: NodePrototype<E, R>, b: NodePrototype<E, R>) -> bool {
    &&& a.name == b.name
    &&& a.ports@ == b.ports@
    &&& a.state_prototype.state@ == b.state_prototype.state@
    &&& a.state_prototype.state.names() == b.state_prototype.state.names()
    &&& a.state_prototype.render == b.state_prototype.render
    &&& a.size == b.size
}

impl<E: Copy, R: Copy> Clone for NodePrototype<E, R> {
    /// A copy describing the same kind of node.
    fn clone(&self) -> (r: Self)
        ensures
            self.state_prototype.state.wf() ==> r.state_prototype.state.wf() && same_prototype(r, *self),
    {
        let mut ports: Vec<PortPrototype<E>> = Vec::new();
        let mut i: usize = 0;
        while i < self.ports.len()
            invariant
                i <= self.ports@.len(),
                ports@ == self.ports@.take(i as int),
            decreases self.ports@.len() - i,
        {
            ports.push(self.ports[i].clone());
            proof {
                assert(self.ports@.take(i as int).push(self.ports@[i as int]) =~= self.ports@.take(i + 1));
            }
            i = i + 1;
        }
        assert(self.ports@.take(i as int) =~= self.ports@);
        NodePrototype {
            name: self.name.clone(),
            ports,
            state_prototype: self.state_prototype.clone(),
            size: self.size,
        }
    }
}

/// A node in the world: its ports, the prototype it was made from, its own
/// state and its position.
pub struct Node<E, R> {
    pub ports: Vec<ID>,
    pub prototype: NodePrototype<E, R>,
    pub state: NodeState<R>,
    pub pos: Vec2Bits,
}

/// All nodes and ports.
pub struct NodeWorld<E, R> {
    pub nodes: Storage<Node<E, R>>,
    pub ports: Storage<Port<E>>,
}

/// Which end a connection being drawn started from.
#[derive(Clone, Copy)]
pub enum DrawingConnection {
    FromInput(ID),
    FromOutput(ID),
}

impl DrawingConnection {
    /// The port the connection started from.
    pub open spec fn begin_port_spec(&self) -> ID {
        match self {
            DrawingConnection::FromInput(p) => *p,
            DrawingConnection::FromOutput(p) => *p,
        }
    }

    /// The port the connection started from.
    pub fn begin_port(&self) -> (r: ID)
        ensures
            r == self.begin_port_spec(),
    {
        match self {
            DrawingConnection::FromInput(p) => *p,
            DrawingConnection::FromOutput(p) => *p,
        }
    }

    /// The connection that starts from port `p`, whose connection state is `kind`.
    pub open spec fn started_from<E>(p: ID, kind: PortKind<E>) -> Self {
        match kind {
            PortKind::Input(_) => DrawingConnection::FromInput(p),
            PortKind::Output(_) => DrawingConnection::FromOutput(p),
        }
    }

    /// A connection starting from port `p`, whose connection state is `kind`.
    pub fn start<E>(p: ID, kind: &PortKind<E>) -> (r: Self)
        ensures
            r == Self::started_from(p, *kind),
    {
        match kind {
            PortKind::Input(_) => DrawingConnection::FromInput(p),
            PortKind::Output(_) => DrawingConnection::FromOutput(p),
        }
    }

    /// The output end and the input end of the connection when it is released
    /// over `hovered`.
    pub open spec fn ends(&self, hovered: Option<ID>) -> (Option<ID>, Option<ID>) {
        match self {
            DrawingConnection::FromInput(b) => (hovered, Some(*b)),
            DrawingConnection::FromOutput(b) => (Some(*b), hovered),
        }
    }

    /// The two ends of the line shown while the connection is drawn, from the
    /// output side to the input side: the free end is the hovered port if
    /// there is one, else the pointer.
    pub fn preview_ends(&self, hovered: Option<ID>) -> (r: (LineEnd, LineEnd))
        ensures
            r == (match self {
                DrawingConnection::FromInput(b) => (
                    match hovered {
                        Some(h) => LineEnd::Port(h),
                        None => LineEnd::Pointer,
                    },
                    LineEnd::Port(*b),
                ),
                DrawingConnection::FromOutput(b) => (
                    LineEnd::Port(*b),
                    match hovered {
                        Some(h) => LineEnd::Port(h),
                        None => LineEnd::Pointer,
                    },
                ),
            }),
    {
        let free = match hovered {
            Some(h) => LineEnd::Port(h),
            None => LineEnd::Pointer,
        };
        match self {
            DrawingConnection::FromInput(b) => (free, LineEnd::Port(*b)),
            DrawingConnection::FromOutput(b) => (LineEnd::Port(*b), free),
        }
    }
}

/// One end of the line drawn while a connection is being made: a port, or
/// the pointer.
#[derive(Clone, Copy, PartialEq, Eq, Debug, Structural)]
pub enum LineEnd {
    Port(ID),
    Pointer,
}

/// What the pointer did over one node or one port during a frame, in the
/// order the editor visits them.
#[derive(Clone, Copy)]
pub enum FrameEvent {
    Node { drag_started: bool, dragged: bool, drag_stopped: bool },
    Port { port: ID, drag_started: bool, drag_stopped: bool, pointer_over: bool },
}

/// What the pointer is doing in the editor.
#[derive(Clone, Copy)]
pub enum InteractingMode {
    Idle,
    DrawingConnection(DrawingConnection),
}

impl InteractingMode {
    /// Whether input ports light up under the pointer: when idle or drawing
    /// from an output.
    pub fn inputs_hoverable(&self) -> (r: bool)
        ensures
            r == (self is Idle || self matches InteractingMode::DrawingConnection(DrawingConnection::FromOutput(_))),
    {
        match self {
            InteractingMode::Idle => true,
            InteractingMode::DrawingConnection(DrawingConnection::FromOutput(_)) => true,
            _ => false,
        }
    }

    /// Whether output ports light up under the pointer: when idle or drawing
    /// from an input.
    pub fn outputs_hoverable(&self) -> (r: bool)
        ensures
            r == (self is Idle || self matches InteractingMode::DrawingConnection(DrawingConnection::FromInput(_))),
    {
        match self {
            InteractingMode::Idle => true,
            InteractingMode::DrawingConnection(DrawingConnection::FromInput(_)) => true,
            _ => false,
        }
    }

    /// Whether nodes can be dragged: only when idle.
    pub fn nodes_draggable(&self) -> (r: bool)
        ensures
            r == self is Idle,
    {
        match self {
            InteractingMode::Idle => true,
            _ => false,
        }
    }

    /// A port with connection state `kind` lights up under the pointer: an
    /// input when inputs are hoverable, an output when outputs are.
    pub open spec fn lights_up<E>(&self, kind: PortKind<E>) -> bool {
        ||| (self is Idle || self matches InteractingMode::DrawingConnection(DrawingConnection::FromOutput(_)))
            && kind is Input
        ||| (self is Idle || self matches InteractingMode::DrawingConnection(DrawingConnection::FromInput(_)))
            && kind is Output
    }

    /// Whether a port with connection state `kind` lights up under the pointer.
    pub fn port_hoverable<E>(&self, kind: &PortKind<E>) -> (r: bool)
        ensures
            r == self.lights_up(*kind),
    {
        (self.inputs_hoverable() && kind.is_input()) || (self.outputs_hoverable() && kind.is_output())
    }

    /// Whether a node under a drag moves with the pointer: only when the editor
    /// is idle and the drag is under way (it neither starts in this frame nor
    /// is absent).
    pub fn node_moves(&self, drag_started: bool, dragged: bool) -> (r: bool)
        ensures
            r == (self is Idle && !drag_started && dragged),
    {
        self.nodes_draggable() && !drag_started && dragged
    }

    /// Feeds the drag events of one frame on a node into the interaction: when
    /// nodes can be dragged and the drag on the node stops (rather than
    /// starting or moving), the editor goes idle.
    pub fn observe_node(&mut self, draggable: bool, drag_started: bool, dragged: bool, drag_stopped: bool)
        ensures
            *final(self) == (if draggable && !drag_started && !dragged && drag_stopped {
                InteractingMode::Idle
            } else {
                *old(self)
            }),
    {
        if draggable {
            if drag_started {
            } else if dragged {
            } else if drag_stopped {
                *self = InteractingMode::Idle;
            }
        }
    }
}

/// A port's connection state fits its prototype: inputs stay inputs, and an
/// output keeps its prototype's evaluator.
pub open spec fn kinds_agree<E>(proto: PortKindPrototype<E>, conn: PortKind<E>) -> bool {
    match proto {
        PortKindPrototype::Input => conn is Input,
        PortKindPrototype::Output(f) => conn == PortKind::Output(f),
    }
}

/// The input ports among `ps`, in order, each as its name and the output port
/// feeding it.
pub open spec fn input_links<E>(ports: Map<ID, Port<E>>, ps: Seq<ID>) -> Seq<(String, Option<ID>)>
    decreases ps.len(),
{
    if ps.len() == 0 {
        Seq::empty()
    } else {
        let rest = input_links(ports, ps.drop_last());
        match ports[ps.last()].connection_kind {
            PortKind::Input(src) => rest.push((ports[ps.last()].port_info.name, src)),
            PortKind::Output(_) => rest,
        }
    }
}

/// The connections among `ports` (listed with their handles `ids`), in
/// order, each as the feeding output port and the fed input port.
pub open spec fn links_of<E>(ids: Seq<ID>, ports: Seq<Port<E>>) -> Seq<(ID, ID)>
    decreases ids.len(),
{
    if ids.len() == 0 || ports.len() == 0 {
        Seq::empty()
    } else {
        let rest = links_of(ids.drop_last(), ports.drop_last());
        match ports.last().connection_kind {
            PortKind::Input(Some(src)) => rest.push((src, ids.last())),
            _ => rest,
        }
    }
}

/// Extending both lists by one entry extends their connections by that
/// entry's connection, if it has one.
pub proof fn lemma_links_of_step<E>(ids: Seq<ID>, ports: Seq<Port<E>>, i: int)
    requires
        ids.len() == ports.len(),
        0 <= i < ids.len(),
    ensures
        links_of(ids.take(i + 1), ports.take(i + 1)) == (match ports[i].connection_kind {
            PortKind::Input(Some(src)) => links_of(ids.take(i), ports.take(i)).push((src, ids[i])),
            _ => links_of(ids.take(i), ports.take(i)),
        }),
{
    assert(ids.take(i + 1).drop_last() =~= ids.take(i));
    assert(ports.take(i + 1).drop_last() =~= ports.take(i));
    assert(ids.take(i + 1).last() == ids[i]);
    assert(ports.take(i + 1).last() == ports[i]);
}

/// Each connection listed comes from a port of the list that is an input fed
/// by the listed output.
pub proof fn lemma_links_of_members<E>(ids: Seq<ID>, ports: Seq<Port<E>>)
    requires
        ids.len() == ports.len(),
    ensures
        forall|j: int| #![trigger links_of(ids, ports)[j]] 0 <= j < links_of(ids, ports).len() ==> exists|k: int|
            0 <= k < ids.len() && #[trigger] ids[k] == links_of(ids, ports)[j].1
                && ports[k].connection_kind == PortKind::<E>::Input(Some(links_of(ids, ports)[j].0)),
    decreases ids.len(),
{
    if ids.len() > 0 {
        let ids0 = ids.drop_last();
        let ports0 = ports.drop_last();
        lemma_links_of_members(ids0, ports0);
        let rest = links_of(ids0, ports0);
        let all = links_of(ids, ports);
        assert forall|j: int| #![trigger all[j]] 0 <= j < all.len() implies exists|k: int|
            0 <= k < ids.len() && #[trigger] ids[k] == all[j].1
                && ports[k].connection_kind == PortKind::<E>::Input(Some(all[j].0)) by {
            if j < rest.len() {
                assert(all[j] == rest[j]);
                let k = choose|k: int| 0 <= k < ids0.len() && #[trigger] ids0[k] == rest[j].1
                    && ports0[k].connection_kind == PortKind::<E>::Input(Some(rest[j].0));
                assert(ids[k] == ids0[k]);
            } else {
                let k = ids.len() - 1;
                assert(ids[k] == all[j].1);
            }
        }
    }
}

/// Every connection listed for a well-formed port storage feeds a live input
/// port from the listed output port.
pub proof fn lemma_links_feed_live_inputs<E>(ports: Storage<Port<E>>)
    requires
        ports.wf(),
    ensures
        forall|i: int|
            #![trigger links_of(ports.id_seq(), ports.entry_seq())[i]]
            0 <= i < links_of(ports.id_seq(), ports.entry_seq()).len() ==> {
                let (src, dst) = links_of(ports.id_seq(), ports.entry_seq())[i];
                &&& ports@.contains_key(dst)
                &&& ports@[dst].connection_kind == PortKind::<E>::Input(Some(src))
            },
{
    let ids = ports.id_seq();
    let entries = ports.entry_seq();
    ports.lemma_structure();
    lemma_links_of_members(ids, entries);
    let all = links_of(ids, entries);
    assert forall|j: int| #![trigger all[j]] 0 <= j < all.len() implies {
        let (src, dst) = all[j];
        &&& ports@.contains_key(dst)
        &&& ports@[dst].connection_kind == PortKind::<E>::Input(Some(src))
    } by {
        let k = choose|k: int| 0 <= k < ids.len() && #[trigger] ids[k] == all[j].1
            && entries[k].connection_kind == PortKind::<E>::Input(Some(all[j].0));
        assert(ports@.contains_key(ids[k]));
    }
}

/// What evaluating an output port needs: the port's evaluator, the node it
/// belongs to, and that node's input ports by name with the output port
/// feeding each.
pub struct OutputEvaluation<E> {
    pub eval: E,
    pub node: ID,
    pub inputs: Vec<(String, Option<ID>)>,
}

impl<E, R> NodeWorld<E, R> {
    /// Port `p` belongs to a live node that lists it, its connection state fits
    /// its prototype, and an input is fed, if at all, by a live output port.
    pub open spec fn port_ok(&self, p: ID) -> bool {
        let port = self.ports@[p];
        &&& self.nodes@.contains_key(port.node)
        &&& self.nodes@[port.node].ports@.contains(p)
        &&& kinds_agree(port.port_info.kind, port.connection_kind)
        &&& (port.connection_kind matches PortKind::Input(Some(src)) ==> self.ports@.contains_key(src)
            && self.ports@[src].connection_kind is Output)
    }

    /// The first `count` ports of node `n` exist, are distinct, point back at
    /// `n` and were made from the matching port prototypes of `n`'s prototype;
    /// and `n`'s state is well formed.
    pub open spec fn node_links_ok(&self, n: ID, count: int) -> bool {
        let nd = self.nodes@[n];
        &&& nd.state.state.wf()
        &&& nd.ports@.len() == count
        &&& count <= nd.prototype.ports@.len()
        &&& nd.ports@.no_duplicates()
        &&& forall|i: int|
            0 <= i < count ==> #[trigger] self.ports@.contains_key(nd.ports@[i])
                && self.ports@[nd.ports@[i]].node == n && self.ports@[nd.ports@[i]].port_info
                == nd.prototype.ports@[i]
    }

    /// Node `n` has exactly one port for each port prototype of its prototype.
    pub open spec fn node_ok(&self, n: ID) -> bool {
        self.node_links_ok(n, self.nodes@[n].prototype.ports@.len() as int)
    }

    /// The world's invariant: both storages are well formed, and every port
    /// and every node is linked up as `port_ok` and `node_ok` say.
    pub open spec fn wf(&self) -> bool {
        &&& self.nodes.wf()
        &&& self.ports.wf()
        &&& forall|p: ID| #[trigger] self.ports@.contains_key(p) ==> self.port_ok(p)
        &&& forall|n: ID| #[trigger] self.nodes@.contains_key(n) ==> self.node_ok(n)
    }

    /// What evaluating port `id` reads is live: for an output port, its node
    /// and every port of that node.
    pub open spec fn evaluable(&self, id: ID) -> bool {
        let node = self.ports@[id].node;
        self.ports@[id].connection_kind is Output ==> {
            &&& self.nodes@.contains_key(node)
            &&& forall|j: int| 0 <= j < self.nodes@[node].ports@.len()
                ==> #[trigger] self.ports@.contains_key(self.nodes@[node].ports@[j])
        }
    }

    /// In a well-formed world every live port's node is live, and so are that
    /// node's ports; so every live port can be located and evaluated.
    pub proof fn lemma_live_ports_are_evaluable(&self, id: ID)
        requires
            self.wf(),
            self.ports@.contains_key(id),
        ensures
            self.nodes@.contains_key(self.ports@[id].node),
            self.evaluable(id),
    {
        assert(self.port_ok(id));
        assert(self.node_ok(self.ports@[id].node));
    }

    /// `after` is `before` with one node added at `pos` from `proto`: the node
    /// gets the next node handle, and one new port per port prototype, in
    /// order, with the next port handles; nothing else changes.
    pub open spec fn creates_node(
        before: Self,
        after: Self,
        pos: Vec2Bits,
        proto: NodePrototype<E, R>,
    ) -> bool where E: Copy {
        let n = before.nodes.handle_after(0);
        let nd = after.nodes@[n];
        let k = proto.ports@.len();
        &&& !before.nodes@.contains_key(n)
        &&& after.nodes.id_seq() == before.nodes.id_seq().push(n)
        &&& Storage::handles_used(before.nodes, after.nodes, 1)
        &&& after.ports.id_seq() == before.ports.id_seq() + nd.ports@
        &&& Storage::handles_used(before.ports, after.ports, k as int)
        &&& after.nodes@.dom() == before.nodes@.dom().insert(n)
        &&& forall|m: ID| #[trigger] before.nodes@.contains_key(m) ==> after.nodes@[m] == before.nodes@[m]
        &&& nd.pos == pos
        &&& same_prototype(nd.prototype, proto)
        &&& nd.state.state@ == proto.state_prototype.state@
        &&& nd.state.state.names() == proto.state_prototype.state.names()
        &&& nd.state.render == proto.state_prototype.render
        &&& nd.ports@ == Seq::new(k, |i: int| before.ports.handle_after(i))
        &&& forall|p: ID| #[trigger] after.ports@.contains_key(p) <==> (before.ports@.contains_key(p) || nd.ports@.contains(p))
        &&& forall|p: ID| #[trigger] before.ports@.contains_key(p) ==> !nd.ports@.contains(p) && after.ports@[p] == before.ports@[p]
        &&& forall|i: int| 0 <= i < k ==> #[trigger] after.ports@[nd.ports@[i]] == (Port {
            port_info: proto.ports@[i],
            node: n,
            connection_kind: proto.ports@[i].kind.spec_instantiate(),
        })
    }
}

impl<E, R> Default for NodeWorld<E, R> {
    /// A world with no nodes and no ports.
    fn default() -> (r: Self)
        ensures
            r.wf(),
            r.nodes@ == Map::<ID, Node<E, R>>::empty(),
            r.ports@ == Map::<ID, Port<E>>::empty(),
            r.nodes.id_seq() == Seq::<ID>::empty(),
            r.ports.id_seq() == Seq::<ID>::empty(),
            r.nodes.free_seq() == Seq::<ID>::empty(),
            r.ports.free_seq() == Seq::<ID>::empty(),
            r.nodes.next_fresh() == 0,
            r.ports.next_fresh() == 0,
    {
        NodeWorld { nodes: Storage::default(), ports: Storage::default() }
    }
}

impl<E: Copy, R: Copy> NodeWorld<E, R> {
    fn create_port_and_link(&mut self, node_id: ID, port_proto: &PortPrototype<E>) -> (r: ID)
        requires
            old(self).ports.wf(),
            old(self).ports.can_create(1),
        ensures
            final(self).nodes == old(self).nodes,
            Storage::creates(
                old(self).ports,
                final(self).ports,
                Port {
                    port_info: *port_proto,
                    node: node_id,
                    connection_kind: port_proto.kind.spec_instantiate(),
                },
                r,
            ),
    {
        let new_port = self.ports.create(
            Port {
                port_info: port_proto.clone(),
                node: node_id,
                connection_kind: port_proto.kind.instantiate(),
            },
        );
        new_port.1
    }
    /// Adds a node at `pos` made from `prototype`, with one fresh port per
    /// port prototype, inputs unconnected.
    pub fn create_node(&mut self, pos: Vec2Bits, prototype: &NodePrototype<E, R>)
        requires
            old(self).nodes.wf(),
            old(self).ports.wf(),
            prototype.state_prototype.state.wf(),
            old(self).nodes.can_create(1),
            old(self).ports.can_create(prototype.ports@.len() as int),
        ensures
            final(self).nodes.wf(),
            final(self).ports.wf(),
            old(self).wf() ==> final(self).wf(),
            Self::creates_node(*old(self), *final(self), pos, *prototype),
    {
        let ghost pre = *self;
        let ghost k = prototype.ports@.len() as int;
        let new_obj = self.nodes.create(
            Node {
                ports: Vec::new(),
                prototype: prototype.clone(),
                state: prototype.state_prototype.clone(),
                pos,
            },
        ).1;
        proof {
            Storage::lemma_create_advances(pre.nodes, self.nodes, self.nodes@[new_obj], new_obj);
            assert(pre.nodes.free_seq().take(pre.nodes.free_seq().len() as int) =~= pre.nodes.free_seq());
            Storage::lemma_handles_used_step(pre.nodes, pre.nodes, self.nodes, 0, self.nodes@[new_obj], new_obj);
            assert(self.nodes@[new_obj].ports@ =~= Seq::new(0, |j: int| pre.ports.handle_after(j)));
            assert(pre.ports.free_seq().take(pre.ports.free_seq().len() as int) =~= pre.ports.free_seq());
            assert(self.ports.id_seq() =~= pre.ports.id_seq() + self.nodes@[new_obj].ports@);
        }
        let mut i: usize = 0;
        while i < prototype.ports.len()
            invariant
                0 <= i <= k,
                k == prototype.ports@.len(),
                pre.nodes.wf(),
                pre.ports.wf(),
                new_obj == pre.nodes.handle_after(0),
                !pre.nodes@.contains_key(new_obj),
                self.nodes.wf(),
                self.ports.wf(),
                pre.ports.can_create(k),
                Storage::handles_used(pre.ports, self.ports, i as int),
                self.nodes.id_seq() == pre.nodes.id_seq().push(new_obj),
                Storage::handles_used(pre.nodes, self.nodes, 1),
                self.ports.id_seq() == pre.ports.id_seq() + self.nodes@[new_obj].ports@,
                self.nodes@.dom() == pre.nodes@.dom().insert(new_obj),
                forall|m: ID| #[trigger] pre.nodes@.contains_key(m) ==> self.nodes@[m] == pre.nodes@[m],
                self.nodes@[new_obj].pos == pos,
                same_prototype(self.nodes@[new_obj].prototype, *prototype),
                self.nodes@[new_obj].state.state.wf(),
                self.nodes@[new_obj].state.state@ == prototype.state_prototype.state@,
                self.nodes@[new_obj].state.state.names() == prototype.state_prototype.state.names(),
                self.nodes@[new_obj].state.render == prototype.state_prototype.render,
                self.nodes@[new_obj].ports@ == Seq::new(i as nat, |j: int| pre.ports.handle_after(j)),
                forall|p: ID| #[trigger] self.ports@.contains_key(p) <==> (pre.ports@.contains_key(p)
                    || self.nodes@[new_obj].ports@.contains(p)),
                forall|p: ID| #[trigger] pre.ports@.contains_key(p) ==> !self.nodes@[new_obj].ports@.contains(p)
                    && self.ports@[p] == pre.ports@[p],
                forall|j: int| 0 <= j < i ==> #[trigger] self.ports@[self.nodes@[new_obj].ports@[j]] == (Port {
                    port_info: prototype.ports@[j],
                    node: new_obj,
                    connection_kind: prototype.ports@[j].kind.spec_instantiate(),
                }),
                self.nodes@[new_obj].ports@.no_duplicates(),
            decreases k - i,
        {
            let ghost mid = *self;
            proof {
                Storage::lemma_handles_used_shift(pre.ports, self.ports, i as int);
                assert(pre.ports.can_create((k - i - 1) + 1 + i));
            }
            let new_p = self.create_port_and_link(new_obj, &prototype.ports[i]);
            proof {
                Storage::lemma_handles_used_step(pre.ports, mid.ports, self.ports, i as int, self.ports@[new_p], new_p);
            }
            self.nodes.get_mut(new_obj).ports.push(new_p);
            proof {
                let np = self.nodes@[new_obj].ports@;
                assert(np =~= Seq::new((i + 1) as nat, |j: int| pre.ports.handle_after(j)));
                assert(np =~= mid.nodes@[new_obj].ports@.push(new_p));
                assert(self.ports.id_seq() =~= pre.ports.id_seq() + np);
                assert forall|m: ID| #[trigger] pre.nodes@.contains_key(m) implies self.nodes@[m] == pre.nodes@[m] by {
                    assert(m != new_obj);
                }
                assert forall|p: ID| #[trigger] self.ports@.contains_key(p) <==> (pre.ports@.contains_key(p)
                    || np.contains(p)) by {
                    if p == new_p {
                        assert(np[i as int] == p);
                    } else if np.contains(p) {
                        let j = choose|j: int| 0 <= j < np.len() && np[j] == p;
                        assert(mid.nodes@[new_obj].ports@[j] == p);
                    } else if mid.nodes@[new_obj].ports@.contains(p) {
                        let j = choose|j: int| 0 <= j < i && mid.nodes@[new_obj].ports@[j] == p;
                        assert(np[j] == p);
                    }
                }
                assert forall|p: ID| #[trigger] pre.ports@.contains_key(p) implies !np.contains(p)
                    && self.ports@[p] == pre.ports@[p] by {
                    assert(mid.ports@.contains_key(p));
                    if np.contains(p) {
                        let j = choose|j: int| 0 <= j < np.len() && np[j] == p;
                        if j < i {
                            assert(mid.nodes@[new_obj].ports@[j] == p);
                        }
                    }
                }
                assert forall|j: int| 0 <= j < i + 1 implies #[trigger] self.ports@[np[j]] == (Port {
                    port_info: prototype.ports@[j],
                    node: new_obj,
                    connection_kind: prototype.ports@[j].kind.spec_instantiate(),
                }) by {
                    if j < i {
                        assert(np[j] == mid.nodes@[new_obj].ports@[j]);
                        assert(mid.ports@.contains_key(np[j]));
                    }
                }
                assert(np.no_duplicates()) by {
                    assert forall|a: int, b: int| 0 <= a < np.len() && 0 <= b < np.len() && a != b implies np[a] != np[b] by {
                        if a < i && b < i {
                            assert(np[a] == mid.nodes@[new_obj].ports@[a]);
                            assert(np[b] == mid.nodes@[new_obj].ports@[b]);
                        } else if a < i {
                            assert(mid.ports@.contains_key(np[a]));
                        } else if b < i {
                            assert(mid.ports@.contains_key(np[b]));
                        }
                    }
                }
            }
            i = i + 1;
        }
        proof {
            self.lemma_created_node_is_linked(pre, new_obj, pos, *prototype);
        }
    }
    proof fn lemma_created_node_is_linked(&self, pre: Self, n: ID, pos: Vec2Bits, proto: NodePrototype<E, R>)
        requires
            n == pre.nodes.handle_after(0),
            !pre.nodes@.contains_key(n),
            self.nodes.wf(),
            self.ports.wf(),
            self.nodes.id_seq() == pre.nodes.id_seq().push(n),
            Storage::handles_used(pre.nodes, self.nodes, 1),
            self.ports.id_seq() == pre.ports.id_seq() + self.nodes@[n].ports@,
            Storage::handles_used(pre.ports, self.ports, proto.ports@.len() as int),
            self.nodes@.dom() == pre.nodes@.dom().insert(n),
            forall|m: ID| #[trigger] pre.nodes@.contains_key(m) ==> self.nodes@[m] == pre.nodes@[m],
            self.nodes@[n].pos == pos,
            same_prototype(self.nodes@[n].prototype, proto),
            self.nodes@[n].state.state.wf(),
            self.nodes@[n].state.state@ == proto.state_prototype.state@,
            self.nodes@[n].state.state.names() == proto.state_prototype.state.names(),
            self.nodes@[n].state.render == proto.state_prototype.render,
            self.nodes@[n].ports@ == Seq::new(proto.ports@.len(), |j: int| pre.ports.handle_after(j)),
            forall|p: ID| #[trigger] self.ports@.contains_key(p) <==> (pre.ports@.contains_key(p)
                || self.nodes@[n].ports@.contains(p)),
            forall|p: ID| #[trigger] pre.ports@.contains_key(p) ==> !self.nodes@[n].ports@.contains(p)
                && self.ports@[p] == pre.ports@[p],
            forall|j: int| 0 <= j < proto.ports@.len() ==> #[trigger] self.ports@[self.nodes@[n].ports@[j]] == (Port {
                port_info: proto.ports@[j],
                node: n,
                connection_kind: proto.ports@[j].kind.spec_instantiate(),
            }),
            self.nodes@[n].ports@.no_duplicates(),
        ensures
            pre.wf() ==> self.wf(),
            Self::creates_node(pre, *self, pos, proto),
    {
        let np = self.nodes@[n].ports@;
        assert(self.nodes@.contains_key(n));
        if pre.wf() {
        assert forall|p: ID| #[trigger] self.ports@.contains_key(p) implies self.port_ok(p) by {
            if pre.ports@.contains_key(p) {
                assert(pre.port_ok(p));
                let m = pre.ports@[p].node;
                assert(pre.nodes@.contains_key(m));
                assert(self.nodes@[m] == pre.nodes@[m]);
                match pre.ports@[p].connection_kind {
                    PortKind::Input(Some(src)) => {
                        assert(pre.ports@.contains_key(src));
                        assert(self.ports@[src] == pre.ports@[src]);
                    },
                    _ => {},
                }
            } else {
                let j = choose|j: int| 0 <= j < np.len() && np[j] == p;
                assert(self.ports@[np[j]] == (Port {
                    port_info: proto.ports@[j],
                    node: n,
                    connection_kind: proto.ports@[j].kind.spec_instantiate(),
                }));
                match proto.ports@[j].kind {
                    PortKindPrototype::Input => {},
                    PortKindPrototype::Output(f) => {},
                }
            }
        }
        assert forall|m: ID| #[trigger] self.nodes@.contains_key(m) implies self.node_ok(m) by {
            if m == n {
                assert(self.nodes@[n].prototype.ports@ == proto.ports@);
                assert forall|i: int| 0 <= i < np.len() implies #[trigger] self.ports@.contains_key(np[i])
                    && self.ports@[np[i]].node == n && self.ports@[np[i]].port_info
                    == self.nodes@[n].prototype.ports@[i] by {
                    assert(self.ports@[np[i]] == (Port {
                        port_info: proto.ports@[i],
                        node: n,
                        connection_kind: proto.ports@[i].kind.spec_instantiate(),
                    }));
                }
            } else {
                assert(pre.nodes@.contains_key(m));
                assert(pre.node_ok(m));
                let nd = pre.nodes@[m];
                assert forall|i: int| 0 <= i < nd.ports@.len() implies #[trigger] self.ports@.contains_key(nd.ports@[i])
                    && self.ports@[nd.ports@[i]].node == m && self.ports@[nd.ports@[i]].port_info
                    == nd.prototype.ports@[i] by {
                    assert(pre.ports@.contains_key(nd.ports@[i]));
                }
            }
        }
        }
    }

    /// The two terms whose sum is the position of `port`: the position of its
    /// node and its offset on the node.
    pub fn get_port_pos_from_ref(&self, port: &Port<E>) -> (r: (Vec2Bits, Vec2Bits))
        requires
            self.nodes.wf(),
            self.nodes@.contains_key(port.node),
        ensures
            r == (self.nodes@[port.node].pos, port.port_info.local_position),
    {
        (self.nodes.get(port.node).pos, port.port_info.local_position)
    }

    /// The two terms whose sum is the position of the port `id`.
    pub fn get_port_pos(&self, id: ID) -> (r: (Vec2Bits, Vec2Bits))
        requires
            self.nodes.wf(),
            self.ports.wf(),
            self.ports@.contains_key(id),
            self.nodes@.contains_key(self.ports@[id].node),
        ensures
            r == (self.nodes@[self.ports@[id].node].pos, self.ports@[id].port_info.local_position),
    {
        self.get_port_pos_from_ref(self.ports.get(id))
    }

    /// For an output port, its evaluator, its node, and the input ports of
    /// that node in port order, each by name with the output port feeding it;
    /// `None` for an input port.
    pub fn output_evaluation(&self, id: ID) -> (r: Option<OutputEvaluation<E>>)
        requires
            self.nodes.wf(),
            self.ports.wf(),
            self.ports@.contains_key(id),
            self.evaluable(id),
        ensures
            match self.ports@[id].connection_kind {
                PortKind::Input(_) => r is None,
                PortKind::Output(f) => r matches Some(ev) && ev.eval == f && ev.node == self.ports@[id].node
                    && ev.inputs@ == input_links(self.ports@, self.nodes@[ev.node].ports@),
            },
    {
        let port = self.ports.get(id);
        let eval = match &port.connection_kind {
            PortKind::Input(_) => {
                return None;
            },
            PortKind::Output(eval) => *eval,
        };
        let node = self.nodes.get(port.node);
        let ghost ps = node.ports@;
        let mut inputs: Vec<(String, Option<ID>)> = Vec::new();
        let mut i: usize = 0;
        while i < node.ports.len()
            invariant
                self.ports.wf(),
                self.nodes@.contains_key(port.node),
                *node == self.nodes@[port.node],
                ps == node.ports@,
                i <= ps.len(),
                forall|j: int| 0 <= j < ps.len() ==> #[trigger] self.ports@.contains_key(ps[j]),
                inputs@ == input_links(self.ports@, ps.take(i as int)),
            decreases ps.len() - i,
        {
            let p = node.ports[i];
            assert(self.ports@.contains_key(ps[i as int]));
            let node_port = self.ports.get(p);
            proof {
                assert(ps.take(i + 1).drop_last() =~= ps.take(i as int));
            }
            if let PortKind::Input(src) = &node_port.connection_kind {
                inputs.push((node_port.port_info.name.clone(), *src));
            }
            i = i + 1;
        }
        assert(ps.take(i as int) =~= ps);
        Some(OutputEvaluation { eval, node: port.node, inputs })
    }

    /// Every connection, in port storage order, as the feeding output port and
    /// the fed input port.
    pub fn connections(&self) -> (r: Vec<(ID, ID)>)
        requires
            self.ports.wf(),
        ensures
            r@ == links_of(self.ports.id_seq(), self.ports.entry_seq()),
            forall|i: int|
                #![trigger r@[i]]
                0 <= i < r@.len() ==> self.ports@.contains_key(r@[i].1)
                    && self.ports@[r@[i].1].connection_kind == PortKind::<E>::Input(Some(r@[i].0)),
    {
        let (ids, ports) = self.ports.with_ids();
        proof {
            self.ports.lemma_structure();
        }
        let mut links: Vec<(ID, ID)> = Vec::new();
        let mut i: usize = 0;
        while i < ids.len()
            invariant
                ids@ == self.ports.id_seq(),
                ports@ == self.ports.entry_seq(),
                ids@.len() == ports@.len(),
                i <= ids@.len(),
                links@ == links_of(ids@.take(i as int), ports@.take(i as int)),
            decreases ids@.len() - i,
        {
            proof {
                lemma_links_of_step(ids@, ports@, i as int);
            }
            if let PortKind::Input(Some(src)) = &ports[i].connection_kind {
                links.push((*src, ids[i]));
            }
            i = i + 1;
        }
        proof {
            assert(ids@.take(i as int) =~= ids@);
            assert(ports@.take(i as int) =~= ports@);
            lemma_links_feed_live_inputs(self.ports);
        }
        links
    }

    /// In a well-formed world every connection is fed by a live output port
    /// and feeds a live input port.
    pub proof fn lemma_links_run_from_outputs(&self)
        requires
            self.wf(),
        ensures
            forall|i: int|
                #![trigger links_of(self.ports.id_seq(), self.ports.entry_seq())[i]]
                0 <= i < links_of(self.ports.id_seq(), self.ports.entry_seq()).len() ==> {
                    let (src, dst) = links_of(self.ports.id_seq(), self.ports.entry_seq())[i];
                    &&& self.ports@.contains_key(src)
                    &&& self.ports@[src].connection_kind is Output
                    &&& self.ports@.contains_key(dst)
                    &&& self.ports@[dst].connection_kind == PortKind::<E>::Input(Some(src))
                },
    {
        let ids = self.ports.id_seq();
        let ports = self.ports.entry_seq();
        self.ports.lemma_structure();
        lemma_links_of_members(ids, ports);
        let all = links_of(ids, ports);
        assert forall|j: int| #![trigger all[j]] 0 <= j < all.len() implies {
            let (src, dst) = all[j];
            &&& self.ports@.contains_key(src)
            &&& self.ports@[src].connection_kind is Output
            &&& self.ports@.contains_key(dst)
            &&& self.ports@[dst].connection_kind == PortKind::<E>::Input(Some(src))
        } by {
            let k = choose|k: int| 0 <= k < ids.len() && #[trigger] ids[k] == all[j].1
                && ports[k].connection_kind == PortKind::<E>::Input(Some(all[j].0));
            assert(self.ports@.contains_key(ids[k]));
            assert(self.port_ok(ids[k]));
        }
    }

    /// The hovered port, unless it sits on the same node as `begin`.
    pub open spec fn snapped(&self, begin: ID, hovered: Option<ID>) -> Option<ID> {
        match hovered {
            Some(h) => if self.ports@[h].node == self.ports@[begin].node {
                None
            } else {
                Some(h)
            },
            None => None,
        }
    }

    /// The port to snap a connection being drawn from `begin` to: the hovered
    /// port, unless it sits on the same node as `begin`.
    pub fn snap_target(&self, begin: ID, hovered: Option<ID>) -> (r: Option<ID>)
        requires
            self.ports.wf(),
            self.ports@.contains_key(begin),
            hovered matches Some(h) ==> self.ports@.contains_key(h),
        ensures
            r == self.snapped(begin, hovered),
    {
        match hovered {
            Some(h) => {
                if self.ports.get(h).node == self.ports.get(begin).node {
                    None
                } else {
                    Some(h)
                }
            },
            None => None,
        }
    }

    /// Completes a connection drawn from the port in `con` and released over
    /// `hovered`: the input end of the pair (the start port when drawing from an
    /// input, else the hovered port) is fed by the output end (the hovered port
    /// when drawing from an input, else the start port); with no input end,
    /// nothing changes. A missing output end disconnects the input.
    pub fn complete_connection(&mut self, con: &DrawingConnection, hovered: Option<ID>)
        requires
            old(self).ports.wf(),
            old(self).ports@.contains_key(con.begin_port_spec()),
            hovered matches Some(h) ==> old(self).ports@.contains_key(h),
        ensures
            Self::connects(*old(self), *final(self), *con, hovered),
    {
        let (outp_port, inp_port) = match con {
            DrawingConnection::FromInput(b) => (hovered, Some(*b)),
            DrawingConnection::FromOutput(b) => (Some(*b), hovered),
        };
        if let Some(inp) = inp_port {
            let ghost pre = *self;
            self.ports.get_mut(inp).connection_kind = PortKind::Input(outp_port);
            proof {
                if pre.wf() && Self::well_typed(pre, outp_port, inp_port) {
                    self.lemma_connect_keeps_wf(pre, outp_port, inp);
                }
            }
        }
    }

    /// `after` is `before` once the connection `con` is released over
    /// `hovered`, as `complete_connection` leaves it.
    pub open spec fn connects(before: Self, after: Self, con: DrawingConnection, hovered: Option<ID>) -> bool {
        let (out, inp) = con.ends(hovered);
        &&& after.nodes == before.nodes
        &&& after.ports.wf()
        &&& inp matches Some(i) ==> after.ports@ =~= before.ports@.insert(
            i,
            Port { connection_kind: PortKind::Input(out), ..before.ports@[i] },
        )
        &&& inp matches Some(i) ==> after.ports.entry_seq() =~= before.ports.entry_seq().update(
            before.ports.slot_of(i),
            after.ports@[i],
        )
        &&& inp is None ==> after.ports@ =~= before.ports@
        &&& inp is None ==> after.ports.entry_seq() =~= before.ports.entry_seq()
        &&& after.ports.id_seq() =~= before.ports.id_seq()
        &&& after.ports.free_seq() =~= before.ports.free_seq()
        &&& after.ports.next_fresh() == before.ports.next_fresh()
        &&& before.wf() && Self::well_typed(before, out, inp) ==> after.wf()
    }

    /// Ends a frame of pointer interaction. While a connection is being drawn
    /// and the pointer position is known, the hovered port is snapped away
    /// from the start port's node and, if the pointer was released, the
    /// connection is completed over it. A release always ends the drawing.
    /// When idle nothing changes.
    pub fn finish_interaction(
        &mut self,
        mode: &mut InteractingMode,
        hovered: &mut Option<ID>,
        pointer_known: bool,
        released: bool,
    )
        requires
            pointer_known ==> old(self).ports.wf(),
            pointer_known ==> (*old(mode) matches InteractingMode::DrawingConnection(con)
                ==> old(self).ports@.contains_key(con.begin_port_spec())),
            pointer_known ==> (*old(hovered) matches Some(h) ==> old(self).ports@.contains_key(h)),
        ensures
            match *old(mode) {
                InteractingMode::Idle => *final(self) == *old(self) && *final(mode) == *old(mode)
                    && *final(hovered) == *old(hovered),
                InteractingMode::DrawingConnection(con) => {
                    &&& pointer_known ==> *final(hovered) == old(self).snapped(con.begin_port_spec(), *old(hovered))
                    &&& !pointer_known ==> *final(hovered) == *old(hovered)
                    &&& released ==> *final(mode) is Idle
                    &&& !released ==> *final(mode) == *old(mode)
                    &&& pointer_known && released ==> Self::connects(*old(self), *final(self), con, *final(hovered))
                    &&& !(pointer_known && released) ==> *final(self) == *old(self)
                },
            },
            old(self).mode_ok(*old(mode)) ==> final(self).mode_ok(*final(mode)),
    {
        let con = match *mode {
            InteractingMode::Idle => {
                return;
            },
            InteractingMode::DrawingConnection(con) => con,
        };
        if pointer_known {
            *hovered = self.snap_target(con.begin_port(), *hovered);
            if released {
                self.complete_connection(&con, *hovered);
            }
        }
        if released {
            *mode = InteractingMode::Idle;
        }
    }

    /// A connection being drawn starts at a live port of the kind its start
    /// names: an input for `FromInput`, an output for `FromOutput`.
    pub open spec fn mode_ok(&self, mode: InteractingMode) -> bool {
        match mode {
            InteractingMode::Idle => true,
            InteractingMode::DrawingConnection(DrawingConnection::FromInput(p)) => self.ports@.contains_key(p)
                && self.ports@[p].connection_kind is Input,
            InteractingMode::DrawingConnection(DrawingConnection::FromOutput(p)) => self.ports@.contains_key(p)
                && self.ports@[p].connection_kind is Output,
        }
    }

    /// Feeds the pointer events of one frame on port `p` into the interaction:
    /// a drag starting on `p` begins a connection from it, a drag stopping on
    /// it marks a release, and the pointer over it makes it the hovered port
    /// if it lights up under `mode_at_start`, the mode the frame began in.
    pub fn observe_port(
        &self,
        p: ID,
        mode_at_start: &InteractingMode,
        mode: &mut InteractingMode,
        hovered: &mut Option<ID>,
        released: &mut bool,
        drag_started: bool,
        drag_stopped: bool,
        pointer_over: bool,
    )
        requires
            self.ports.wf(),
            self.ports@.contains_key(p),
        ensures
            *final(mode) == (if drag_started {
                InteractingMode::DrawingConnection(DrawingConnection::started_from(p, self.ports@[p].connection_kind))
            } else {
                *old(mode)
            }),
            *final(released) == (*old(released) || drag_stopped),
            *final(hovered) == (if pointer_over && mode_at_start.lights_up(self.ports@[p].connection_kind) {
                Some(p)
            } else {
                *old(hovered)
            }),
            self.mode_ok(*old(mode)) ==> self.mode_ok(*final(mode)),
    {
        let kind = &self.ports.get(p).connection_kind;
        if drag_started {
            *mode = InteractingMode::DrawingConnection(DrawingConnection::start(p, kind));
        }
        if drag_stopped {
            *released = true;
        }
        if pointer_over && mode_at_start.port_hoverable(kind) {
            *hovered = Some(p);
        }
    }

    /// The mode, hovered port and release mark after feeding `events` in order
    /// into `state`, with hovering and node dragging judged by `mode_at_start`.
    pub open spec fn after_events(
        &self,
        mode_at_start: InteractingMode,
        state: (InteractingMode, Option<ID>, bool),
        events: Seq<FrameEvent>,
    ) -> (InteractingMode, Option<ID>, bool)
        decreases events.len(),
    {
        if events.len() == 0 {
            state
        } else {
            let (m, h, r) = self.after_events(mode_at_start, state, events.drop_last());
            match events.last() {
                FrameEvent::Node { drag_started, dragged, drag_stopped } => (
                    if mode_at_start is Idle && !drag_started && !dragged && drag_stopped {
                        InteractingMode::Idle
                    } else {
                        m
                    },
                    h,
                    r,
                ),
                FrameEvent::Port { port, drag_started, drag_stopped, pointer_over } => (
                    if drag_started {
                        InteractingMode::DrawingConnection(
                            DrawingConnection::started_from(port, self.ports@[port].connection_kind),
                        )
                    } else {
                        m
                    },
                    if pointer_over && mode_at_start.lights_up(self.ports@[port].connection_kind) {
                        Some(port)
                    } else {
                        h
                    },
                    r || drag_stopped,
                ),
            }
        }
    }

    /// Runs the decisions of one frame of pointer interaction: the hovered
    /// port is cleared, the frame's `events` are fed in order (a stopped node
    /// drag while idle ends drawing, a drag starting on a port begins a
    /// connection from it, a drag stopping on a port marks a release, a port
    /// under the pointer that lights up under the frame's starting mode is
    /// hovered), and then the interaction is finished as `finish_interaction`
    /// does. Returns the connection that was being drawn before finishing, if
    /// any, for the frame's preview line. A connection being drawn stays
    /// anchored at a live port of the kind its start names, frame after frame.
    pub fn act_frame(
        &mut self,
        mode: &mut InteractingMode,
        hovered: &mut Option<ID>,
        events: &[FrameEvent],
        pointer_known: bool,
    ) -> (drawn: Option<DrawingConnection>)
        requires
            old(self).ports.wf(),
            *old(mode) matches InteractingMode::DrawingConnection(con) ==> old(self).ports@.contains_key(
                con.begin_port_spec(),
            ),
            forall|i: int|
                0 <= i < events@.len() ==> (#[trigger] events@[i] matches FrameEvent::Port { port, .. }
                    ==> old(self).ports@.contains_key(port)),
        ensures
            ({
                let (m, h, r) = old(self).after_events(*old(mode), (*old(mode), None, false), events@);
                &&& drawn == (match m {
                    InteractingMode::DrawingConnection(con) => Some(con),
                    InteractingMode::Idle => None,
                })
                &&& match m {
                    InteractingMode::Idle => *final(self) == *old(self) && *final(mode) is Idle && *final(hovered) == h,
                    InteractingMode::DrawingConnection(con) => {
                        &&& pointer_known ==> *final(hovered) == old(self).snapped(con.begin_port_spec(), h)
                        &&& !pointer_known ==> *final(hovered) == h
                        &&& r ==> *final(mode) is Idle
                        &&& !r ==> *final(mode) == m
                        &&& pointer_known && r ==> Self::connects(*old(self), *final(self), con, *final(hovered))
                        &&& !(pointer_known && r) ==> *final(self) == *old(self)
                    },
                }
            }),
            old(self).mode_ok(*old(mode)) ==> final(self).mode_ok(*final(mode)),
            *final(hovered) matches Some(p) ==> old(self).ports@.contains_key(p) && match *old(mode) {
                InteractingMode::Idle => true,
                InteractingMode::DrawingConnection(DrawingConnection::FromInput(_)) => old(self).ports@[p].connection_kind is Output,
                InteractingMode::DrawingConnection(DrawingConnection::FromOutput(_)) => old(self).ports@[p].connection_kind is Input,
            },
            old(self).wf() && old(self).mode_ok(*old(mode)) && (forall|i: int|
                0 <= i < events@.len() ==> !(#[trigger] events@[i] matches FrameEvent::Port { drag_started: true, .. }))
                ==> final(self).wf(),
    {
        let mode_at_start = *mode;
        let draggable = mode_at_start.nodes_draggable();
        *hovered = None;
        let mut released = false;
        let ghost init = (*mode, *hovered, released);
        let mut i: usize = 0;
        while i < events.len()
            invariant
                *self == *old(self),
                self.ports.wf(),
                mode_at_start == *old(mode),
                draggable == (mode_at_start is Idle),
                init == (*old(mode), None::<ID>, false),
                i <= events@.len(),
                (*mode, *hovered, released) == self.after_events(mode_at_start, init, events@.take(i as int)),
                *mode matches InteractingMode::DrawingConnection(con) ==> self.ports@.contains_key(con.begin_port_spec()),
                *hovered matches Some(h) ==> self.ports@.contains_key(h),
                self.mode_ok(*old(mode)) ==> self.mode_ok(*mode),
                forall|j: int|
                    0 <= j < events@.len() ==> (#[trigger] events@[j] matches FrameEvent::Port { port, .. }
                        ==> self.ports@.contains_key(port)),
            decreases events@.len() - i,
        {
            proof {
                assert(events@.take(i + 1).drop_last() =~= events@.take(i as int));
                assert(events@.take(i + 1).last() == events@[i as int]);
            }
            match events[i] {
                FrameEvent::Node { drag_started, dragged, drag_stopped } => {
                    mode.observe_node(draggable, drag_started, dragged, drag_stopped);
                },
                FrameEvent::Port { port, drag_started, drag_stopped, pointer_over } => {
                    assert(events@[i as int] matches FrameEvent::Port { port, .. });
                    self.observe_port(
                        port,
                        &mode_at_start,
                        mode,
                        hovered,
                        &mut released,
                        drag_started,
                        drag_stopped,
                        pointer_over,
                    );
                },
            }
            i = i + 1;
        }
        proof {
            assert(events@.take(i as int) =~= events@);
        }
        let drawn = match *mode {
            InteractingMode::DrawingConnection(con) => Some(con),
            InteractingMode::Idle => None,
        };
        proof {
            self.law_frame_hovers_by_starting_mode(mode_at_start, init, events@);
        }
        let ghost pre = *self;
        let ghost m = *mode;
        let ghost h = *hovered;
        self.finish_interaction(mode, hovered, pointer_known, released);
        proof {
            if pre.wf() && pre.mode_ok(mode_at_start) && (forall|i: int|
                0 <= i < events@.len() ==> !(#[trigger] events@[i] matches FrameEvent::Port { drag_started: true, .. })) {
                if let InteractingMode::DrawingConnection(con) = m {
                    if pointer_known && released {
                        assert(m == mode_at_start);
                        let sn = pre.snapped(con.begin_port_spec(), h);
                        assert(NodeWorld::well_typed(pre, con.ends(sn).0, con.ends(sn).1));
                    }
                }
            }
        }
        drawn
    }

    /// Over the events of a frame, a port becomes hovered only if it lights up
    /// under the mode the frame started in: any port when idle, only outputs
    /// while drawing from an input, only inputs while drawing from an output.
    /// Without a drag starting on a port, the mode ends as it began or idle.
    pub proof fn law_frame_hovers_by_starting_mode(
        &self,
        mode_at_start: InteractingMode,
        state: (InteractingMode, Option<ID>, bool),
        events: Seq<FrameEvent>,
    )
        requires
            forall|i: int|
                0 <= i < events.len() ==> (#[trigger] events[i] matches FrameEvent::Port { port, .. }
                    ==> self.ports@.contains_key(port)),
            state.1 matches Some(p) ==> self.ports@.contains_key(p) && match mode_at_start {
                InteractingMode::Idle => true,
                InteractingMode::DrawingConnection(DrawingConnection::FromInput(_)) => self.ports@[p].connection_kind is Output,
                InteractingMode::DrawingConnection(DrawingConnection::FromOutput(_)) => self.ports@[p].connection_kind is Input,
            },
        ensures
            ({
                let r = self.after_events(mode_at_start, state, events);
                &&& r.1 matches Some(p) ==> self.ports@.contains_key(p) && match mode_at_start {
                    InteractingMode::Idle => true,
                    InteractingMode::DrawingConnection(DrawingConnection::FromInput(_)) => self.ports@[p].connection_kind is Output,
                    InteractingMode::DrawingConnection(DrawingConnection::FromOutput(_)) => self.ports@[p].connection_kind is Input,
                }
                &&& (forall|i: int| 0 <= i < events.len() ==> !(#[trigger] events[i] matches FrameEvent::Port { drag_started: true, .. }))
                    ==> (r.0 == state.0 || r.0 is Idle)
                &&& r.2 == (state.2 || exists|i: int| 0 <= i < events.len()
                    && #[trigger] events[i] matches FrameEvent::Port { drag_stopped: true, .. })
                &&& (r.0 matches InteractingMode::DrawingConnection(con) ==> r.0 == state.0 || exists|i: int|
                    0 <= i < events.len() && #[trigger] events[i] == (FrameEvent::Port {
                        port: con.begin_port_spec(),
                        drag_started: true,
                        drag_stopped: events[i]->Port_drag_stopped,
                        pointer_over: events[i]->Port_pointer_over,
                    }) && con == DrawingConnection::started_from(
                        con.begin_port_spec(),
                        self.ports@[con.begin_port_spec()].connection_kind,
                    ))
            }),
        decreases events.len(),
    {
        if events.len() > 0 {
            let rest = events.drop_last();
            assert forall|i: int| 0 <= i < rest.len() implies (#[trigger] rest[i] matches FrameEvent::Port { port, .. }
                ==> self.ports@.contains_key(port)) by {
                assert(rest[i] == events[i]);
            }
            self.law_frame_hovers_by_starting_mode(mode_at_start, state, rest);
            let n = events.len() - 1;
            assert(events.last() == events[n]);
            if exists|i: int| 0 <= i < rest.len() && #[trigger] rest[i] matches FrameEvent::Port { drag_stopped: true, .. } {
                let i = choose|i: int| 0 <= i < rest.len() && #[trigger] rest[i] matches FrameEvent::Port { drag_stopped: true, .. };
                assert(events[i] == rest[i]);
            }
            if exists|i: int| 0 <= i < events.len() && #[trigger] events[i] matches FrameEvent::Port { drag_stopped: true, .. } {
                let i = choose|i: int| 0 <= i < events.len() && #[trigger] events[i] matches FrameEvent::Port { drag_stopped: true, .. };
                if i < n {
                    assert(rest[i] == events[i]);
                }
            }
            let rr = self.after_events(mode_at_start, state, rest);
            if let InteractingMode::DrawingConnection(con) = rr.0 {
                if rr.0 != state.0 {
                    let i = choose|i: int| 0 <= i < rest.len() && #[trigger] rest[i] == (FrameEvent::Port {
                        port: con.begin_port_spec(),
                        drag_started: true,
                        drag_stopped: rest[i]->Port_drag_stopped,
                        pointer_over: rest[i]->Port_pointer_over,
                    }) && con == DrawingConnection::started_from(
                        con.begin_port_spec(),
                        self.ports@[con.begin_port_spec()].connection_kind,
                    );
                    assert(events[i] == rest[i]);
                }
            }
            if forall|i: int| 0 <= i < events.len() ==> !(#[trigger] events[i] matches FrameEvent::Port { drag_started: true, .. }) {
                assert forall|i: int| 0 <= i < rest.len() implies !(#[trigger] rest[i] matches FrameEvent::Port { drag_started: true, .. }) by {
                    assert(rest[i] == events[i]);
                }
            }
        }
    }

    /// Feeding `inp` from `out` keeps the world's invariant: `inp`, if given,
    /// is an input port, and `out`, if given, is an output port.
    pub open spec fn well_typed(w: Self, out: Option<ID>, inp: Option<ID>) -> bool {
        &&& inp matches Some(i) ==> w.ports@.contains_key(i) && w.ports@[i].connection_kind is Input
        &&& out matches Some(o) ==> w.ports@.contains_key(o) && w.ports@[o].connection_kind is Output
    }

    proof fn lemma_connect_keeps_wf(&self, pre: Self, out: Option<ID>, inp: ID)
        requires
            pre.wf(),
            Self::well_typed(pre, out, Some(inp)),
            self.nodes == pre.nodes,
            self.ports.wf(),
            self.ports@ == pre.ports@.insert(inp, Port { connection_kind: PortKind::Input(out), ..pre.ports@[inp] }),
        ensures
            self.wf(),
    {
        assert forall|p: ID| #[trigger] self.ports@.contains_key(p) implies self.port_ok(p) by {
            assert(pre.port_ok(p));
            match self.ports@[p].connection_kind {
                PortKind::Input(Some(src)) => {
                    if p != inp {
                        assert(pre.ports@.contains_key(src));
                        assert(src != inp);
                    }
                },
                _ => {},
            }
        }
        assert forall|m: ID| #[trigger] self.nodes@.contains_key(m) implies self.node_ok(m) by {
            assert(pre.node_ok(m));
            let nd = pre.nodes@[m];
            assert forall|i: int| 0 <= i < nd.ports@.len() implies #[trigger] self.ports@.contains_key(nd.ports@[i])
                && self.ports@[nd.ports@[i]].node == m && self.ports@[nd.ports@[i]].port_info
                == nd.prototype.ports@[i] by {
                assert(pre.ports@.contains_key(nd.ports@[i]));
            }
        }
    }
}

/// A connection drawn by the editor's rules keeps every link from an output
/// port to an input port of another node: it starts from a port with the
/// matching end, it is released over a port that lights up while it is being
/// drawn (or over none), and the target is snapped away from the start's node.
pub proof fn law_drawn_connection_is_well_typed<E: Copy, R: Copy>(
    w: NodeWorld<E, R>,
    con: DrawingConnection,
    hovered: Option<ID>,
)
    requires
        w.wf(),
        w.ports@.contains_key(con.begin_port_spec()),
        con == DrawingConnection::started_from(con.begin_port_spec(), w.ports@[con.begin_port_spec()].connection_kind),
        hovered matches Some(h) ==> w.ports@.contains_key(h) && InteractingMode::DrawingConnection(con).lights_up(
            w.ports@[h].connection_kind,
        ),
    ensures
        ({
            let (out, inp) = con.ends(w.snapped(con.begin_port_spec(), hovered));
            &&& NodeWorld::well_typed(w, out, inp)
            &&& ((out, inp) matches (Some(o), Some(i)) ==> w.ports@[o].node != w.ports@[i].node)
        }),
{
    let b = con.begin_port_spec();
    let snapped = w.snapped(b, hovered);
    match con {
        DrawingConnection::FromInput(x) => {
            assert(w.ports@[b].connection_kind is Input);
            if let Some(h) = snapped {
                assert(hovered == Some(h));
                assert(w.ports@[h].connection_kind is Output);
            }
        },
        DrawingConnection::FromOutput(x) => {
            assert(w.ports@[b].connection_kind is Output);
            if let Some(h) = snapped {
                assert(hovered == Some(h));
                assert(w.ports@[h].connection_kind is Input);
            }
        },
    }
}

/// Adding a node keeps a connection being drawn valid: the port it starts
/// at is still live and of the same kind.
pub proof fn law_mode_survives_node_creation<E: Copy, R: Copy>(
    before: NodeWorld<E, R>,
    after: NodeWorld<E, R>,
    pos: Vec2Bits,
    proto: NodePrototype<E, R>,
    mode: InteractingMode,
)
    requires
        NodeWorld::creates_node(before, after, pos, proto),
        before.mode_ok(mode),
    ensures
        after.mode_ok(mode),
{
    match mode {
        InteractingMode::Idle => {},
        InteractingMode::DrawingConnection(con) => {
            let p = con.begin_port_spec();
            assert(before.ports@.contains_key(p));
            assert(after.ports@[p] == before.ports@[p]);
        },
    }
}

/// Completing a connection feeds its input end from its output end, whatever
/// fed that input before: drawing from input `b` sets `b` to be fed by the
/// hovered port (or nothing); drawing from output `b` over `h` sets `h` to be
/// fed by `b`. Every other port, and every port's prototype and node, stays.
pub proof fn law_connect_feeds_input_end<E: Copy, R: Copy>(
    before: NodeWorld<E, R>,
    after: NodeWorld<E, R>,
    con: DrawingConnection,
    hovered: Option<ID>,
)
    requires
        NodeWorld::connects(before, after, con, hovered),
        before.ports@.contains_key(con.begin_port_spec()),
        hovered matches Some(h) ==> before.ports@.contains_key(h),
    ensures
        after.nodes == before.nodes,
        after.ports@.dom() == before.ports@.dom(),
        match con {
            DrawingConnection::FromInput(b) => after.ports@[b].connection_kind == PortKind::<E>::Input(hovered)
                && after.ports@[b].port_info == before.ports@[b].port_info && after.ports@[b].node
                == before.ports@[b].node && forall|q: ID| #[trigger] before.ports@.contains_key(q) && q != b
                ==> after.ports@[q] == before.ports@[q],
            DrawingConnection::FromOutput(b) => match hovered {
                Some(h) => after.ports@[h].connection_kind == PortKind::<E>::Input(Some(b))
                    && after.ports@[h].port_info == before.ports@[h].port_info && after.ports@[h].node
                    == before.ports@[h].node && forall|q: ID| #[trigger] before.ports@.contains_key(q) && q != h
                    ==> after.ports@[q] == before.ports@[q],
                None => after.ports@ == before.ports@,
            },
        },
{
    match con {
        DrawingConnection::FromInput(b) => {
            assert(after.ports@.dom() =~= before.ports@.dom());
        },
        DrawingConnection::FromOutput(b) => {
            assert(after.ports@.dom() =~= before.ports@.dom());
        },
    }
}

/// Snapping keeps the hovered port exactly when it sits on another node than
/// the start port, whatever it is connected to; with nothing hovered there is
/// nothing to snap to.
pub proof fn law_snap_drops_only_same_node<E: Copy, R: Copy>(w: NodeWorld<E, R>, begin: ID)
    ensures
        w.snapped(begin, None) is None,
        forall|h: ID| w.ports@[h].node != w.ports@[begin].node ==> #[trigger] w.snapped(begin, Some(h)) == Some(h),
        forall|h: ID| w.ports@[h].node == w.ports@[begin].node ==> #[trigger] w.snapped(begin, Some(h)) is None,
{
}

/// The inputs that an evaluation lists are exactly the input ports among
/// `ps`, each named as its port and paired with that port's own feeding
/// output: every listed pair comes from such a port, and every input port
/// is listed with its own connection.
pub proof fn law_inputs_record_own_connections<E>(ports: Map<ID, Port<E>>, ps: Seq<ID>)
    ensures
        forall|j: int|
            #![trigger input_links(ports, ps)[j]]
            0 <= j < input_links(ports, ps).len() ==> exists|k: int|
                0 <= k < ps.len() && #[trigger] ports[ps[k]].connection_kind == PortKind::<E>::Input(
                    input_links(ports, ps)[j].1,
                ) && ports[ps[k]].port_info.name == input_links(ports, ps)[j].0,
        forall|k: int|
            0 <= k < ps.len() ==> (#[trigger] ports[ps[k]].connection_kind matches PortKind::Input(c)
                ==> exists|j: int|
                0 <= j < input_links(ports, ps).len() && #[trigger] input_links(ports, ps)[j] == (
                    ports[ps[k]].port_info.name,
                    c,
                )),
    decreases ps.len(),
{
    if ps.len() > 0 {
        let rest = ps.drop_last();
        law_inputs_record_own_connections(ports, rest);
        let lr = input_links(ports, rest);
        let all = input_links(ports, ps);
        let n = ps.len() - 1;
        assert(ps.last() == ps[n]);
        assert forall|j: int| #![trigger all[j]] 0 <= j < all.len() implies exists|k: int|
            0 <= k < ps.len() && #[trigger] ports[ps[k]].connection_kind == PortKind::<E>::Input(all[j].1)
                && ports[ps[k]].port_info.name == all[j].0 by {
            if j < lr.len() {
                assert(all[j] == lr[j]);
                let k = choose|k: int| 0 <= k < rest.len() && #[trigger] ports[rest[k]].connection_kind
                    == PortKind::<E>::Input(lr[j].1) && ports[rest[k]].port_info.name == lr[j].0;
                assert(ps[k] == rest[k]);
            } else {
                assert(ports[ps[n]].connection_kind == PortKind::<E>::Input(all[j].1));
            }
        }
        assert forall|k: int| 0 <= k < ps.len() implies (#[trigger] ports[ps[k]].connection_kind matches PortKind::Input(c)
            ==> exists|j: int| 0 <= j < all.len() && #[trigger] all[j] == (ports[ps[k]].port_info.name, c)) by {
            if let PortKind::Input(c) = ports[ps[k]].connection_kind {
                if k < n {
                    assert(ps[k] == rest[k]);
                    assert(ports[rest[k]].connection_kind == PortKind::<E>::Input(c));
                    let j = choose|j: int| 0 <= j < lr.len() && #[trigger] lr[j] == (ports[rest[k]].port_info.name, c);
                    assert(all[j] == lr[j]);
                } else {
                    assert(all[all.len() - 1] == (ports[ps[k]].port_info.name, c));
                }
            }
        }
    }
}

/// The inputs that an evaluation lists are the ports of `ps` in order, keeping
/// the inputs only, each as its name and its own feeding output.
pub proof fn law_inputs_in_port_order<E>(ports: Map<ID, Port<E>>, ps: Seq<ID>)
    ensures
        input_links(ports, ps) == ps.filter_map(
            |q: ID|
                match ports[q].connection_kind {
                    PortKind::Input(c) => Some((ports[q].port_info.name, c)),
                    PortKind::Output(_) => None,
                },
        ),
    decreases ps.len(),
{
    if ps.len() > 0 {
        law_inputs_in_port_order(ports, ps.drop_last());
        let f = |q: ID|
            match ports[q].connection_kind {
                PortKind::Input(c) => Some((ports[q].port_info.name, c)),
                PortKind::Output(_) => None,
            };
        match ports[ps.last()].connection_kind {
            PortKind::Input(c) => {
                assert(ps.drop_last().filter_map(f).push((ports[ps.last()].port_info.name, c))
                    =~= ps.drop_last().filter_map(f) + seq![(ports[ps.last()].port_info.name, c)]);
            },
            PortKind::Output(_) => {},
        }
    }
}

} // verus!
