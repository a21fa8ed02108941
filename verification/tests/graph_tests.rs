use nodes_gui::editor_graph::{
    DrawingConnection, FrameEvent, InteractingMode, LineEnd, NodePrototype, NodeState, NodeWorld, PortKind,
    PortKindPrototype, PortPrototype, StateMap, StateValue, Vec2Bits,
};
use nodes_gui::storage::ID;

fn v(x: f32, y: f32) -> Vec2Bits {
    Vec2Bits { x: x.to_bits(), y: y.to_bits() }
}

fn adder() -> NodePrototype<u8, u8> {
    NodePrototype {
        name: "Add Float".to_string(),
        size: v(100.0, 80.0),
        ports: vec![
            PortPrototype { local_position: v(0.0, 50.0), name: "A".to_string(), kind: PortKindPrototype::Input },
            PortPrototype { local_position: v(0.0, 60.0), name: "B".to_string(), kind: PortKindPrototype::Input },
            PortPrototype { local_position: v(100.0, 40.0), name: "Out".to_string(), kind: PortKindPrototype::Output(7) },
        ],
        state_prototype: NodeState { state: StateMap::new(), render: None },
    }
}

fn constant() -> NodePrototype<u8, u8> {
    let state = StateMap::from_pairs(vec![("val".to_string(), StateValue::Float(1f32.to_bits()))]);
    NodePrototype {
        name: "Constant".to_string(),
        size: v(200.0, 100.0),
        ports: vec![PortPrototype { local_position: v(200.0, 30.0), name: "".to_string(), kind: PortKindPrototype::Output(3) }],
        state_prototype: NodeState { state, render: Some(1) },
    }
}

#[test]
fn create_node_makes_one_port_per_prototype_port() {
    let mut w: NodeWorld<u8, u8> = NodeWorld::default();
    w.create_node(v(5.0, 6.0), &adder());
    let n = w.nodes.get(ID(0));
    assert_eq!(n.ports, vec![ID(0), ID(1), ID(2)]);
    assert_eq!(n.pos, v(5.0, 6.0));
    assert_eq!(n.prototype.name, "Add Float");
    assert!(w.ports.get(ID(0)).connection_kind.is_input());
    assert!(w.ports.get(ID(2)).connection_kind.is_output());
    assert_eq!(w.ports.get(ID(1)).port_info.name, "B");
    assert_eq!(w.ports.get(ID(2)).node, ID(0));
    assert!(matches!(w.ports.get(ID(0)).connection_kind, PortKind::Input(None)));
    assert!(matches!(w.ports.get(ID(2)).connection_kind, PortKind::Output(7)));
}

#[test]
fn second_node_gets_next_handles_and_own_state() {
    let mut w: NodeWorld<u8, u8> = NodeWorld::default();
    w.create_node(v(0.0, 0.0), &adder());
    w.create_node(v(1.0, 1.0), &constant());
    let c = w.nodes.get(ID(1));
    assert_eq!(c.ports, vec![ID(3)]);
    assert_eq!(w.ports.get(ID(3)).node, ID(1));
    assert_eq!(c.state.render, Some(1));
    match c.state.state.get("val") {
        Some(StateValue::Float(b)) => assert_eq!(f32::from_bits(*b), 1.0),
        _ => panic!("missing state"),
    }
}

#[test]
fn port_position_terms() {
    let mut w: NodeWorld<u8, u8> = NodeWorld::default();
    w.create_node(v(10.0, 20.0), &adder());
    let (node_pos, offset) = w.get_port_pos(ID(2));
    assert_eq!(node_pos, v(10.0, 20.0));
    assert_eq!(offset, v(100.0, 40.0));
    let (p2, o2) = w.get_port_pos_from_ref(w.ports.get(ID(1)));
    assert_eq!(p2, v(10.0, 20.0));
    assert_eq!(o2, v(0.0, 60.0));
}

#[test]
fn output_evaluation_lists_inputs_of_node() {
    let mut w: NodeWorld<u8, u8> = NodeWorld::default();
    w.create_node(v(0.0, 0.0), &adder());
    w.create_node(v(0.0, 0.0), &constant());
    assert!(w.output_evaluation(ID(0)).is_none());
    w.complete_connection(&DrawingConnection::FromInput(ID(0)), Some(ID(3)));
    let ev = w.output_evaluation(ID(2)).unwrap();
    assert_eq!(ev.eval, 7);
    assert_eq!(ev.node, ID(0));
    assert_eq!(ev.inputs, vec![("A".to_string(), Some(ID(3))), ("B".to_string(), None)]);
    let ev2 = w.output_evaluation(ID(3)).unwrap();
    assert_eq!(ev2.eval, 3);
    assert!(ev2.inputs.is_empty());
}

#[test]
fn connections_go_from_output_to_input() {
    let mut w: NodeWorld<u8, u8> = NodeWorld::default();
    w.create_node(v(0.0, 0.0), &adder());
    w.create_node(v(0.0, 0.0), &constant());
    assert!(w.connections().is_empty());
    w.complete_connection(&DrawingConnection::FromOutput(ID(3)), Some(ID(1)));
    assert_eq!(w.connections(), vec![(ID(3), ID(1))]);
    w.complete_connection(&DrawingConnection::FromInput(ID(1)), None);
    assert!(w.connections().is_empty());
}

#[test]
fn complete_connection_without_input_end_changes_nothing() {
    let mut w: NodeWorld<u8, u8> = NodeWorld::default();
    w.create_node(v(0.0, 0.0), &constant());
    w.complete_connection(&DrawingConnection::FromOutput(ID(0)), None);
    assert!(matches!(w.ports.get(ID(0)).connection_kind, PortKind::Output(3)));
}

#[test]
fn snap_target_drops_ports_of_same_node() {
    let mut w: NodeWorld<u8, u8> = NodeWorld::default();
    w.create_node(v(0.0, 0.0), &adder());
    w.create_node(v(0.0, 0.0), &constant());
    assert_eq!(w.snap_target(ID(0), Some(ID(2))), None);
    assert_eq!(w.snap_target(ID(0), Some(ID(3))), Some(ID(3)));
    assert_eq!(w.snap_target(ID(0), None), None);
}

#[test]
fn hover_rules_follow_mode() {
    let idle = InteractingMode::Idle;
    let from_in = InteractingMode::DrawingConnection(DrawingConnection::FromInput(ID(0)));
    let from_out = InteractingMode::DrawingConnection(DrawingConnection::FromOutput(ID(0)));
    let inp: PortKind<u8> = PortKind::Input(None);
    let out: PortKind<u8> = PortKind::Output(1);
    assert!(idle.inputs_hoverable() && idle.outputs_hoverable() && idle.nodes_draggable());
    assert!(!from_in.inputs_hoverable() && from_in.outputs_hoverable() && !from_in.nodes_draggable());
    assert!(from_out.inputs_hoverable() && !from_out.outputs_hoverable());
    assert!(idle.port_hoverable(&inp) && idle.port_hoverable(&out));
    assert!(!from_in.port_hoverable(&inp) && from_in.port_hoverable(&out));
    assert!(from_out.port_hoverable(&inp) && !from_out.port_hoverable(&out));
}

#[test]
fn starting_a_connection_follows_port_kind() {
    let inp: PortKind<u8> = PortKind::Input(Some(ID(9)));
    let out: PortKind<u8> = PortKind::Output(1);
    assert!(matches!(DrawingConnection::start(ID(4), &inp), DrawingConnection::FromInput(ID(4))));
    assert!(matches!(DrawingConnection::start(ID(5), &out), DrawingConnection::FromOutput(ID(5))));
    assert_eq!(DrawingConnection::FromOutput(ID(5)).begin_port(), ID(5));
}

#[test]
fn instantiate_and_kind_queries() {
    let i: PortKindPrototype<u8> = PortKindPrototype::Input;
    let o: PortKindPrototype<u8> = PortKindPrototype::Output(2);
    assert!(matches!(i.instantiate(), PortKind::Input(None)));
    assert!(matches!(o.instantiate(), PortKind::Output(2)));
    assert!(o.instantiate().is_output());
    assert!(!o.instantiate().is_input());
}

#[test]
fn prototype_clone_is_equal() {
    let p = constant();
    let d = p.clone();
    assert_eq!(d.name, p.name);
    assert_eq!(d.size, p.size);
    assert_eq!(d.ports.len(), 1);
    assert_eq!(d.ports[0].name, "");
    assert_eq!(d.state_prototype.render, Some(1));
    let s: NodeState<u8> = NodeState::default();
    assert!(s.render.is_none());
    assert!(s.state.get("x").is_none());
}

#[test]
fn finish_interaction_snaps_connects_and_goes_idle() {
    let mut w: NodeWorld<u8, u8> = NodeWorld::default();
    w.create_node(v(0.0, 0.0), &adder());
    w.create_node(v(0.0, 0.0), &constant());
    let mut mode = InteractingMode::DrawingConnection(DrawingConnection::FromOutput(ID(3)));
    let mut hovered = Some(ID(0));
    w.finish_interaction(&mut mode, &mut hovered, true, false);
    assert_eq!(hovered, Some(ID(0)));
    assert!(matches!(mode, InteractingMode::DrawingConnection(DrawingConnection::FromOutput(ID(3)))));
    assert!(w.connections().is_empty());
    w.finish_interaction(&mut mode, &mut hovered, true, true);
    assert!(matches!(mode, InteractingMode::Idle));
    assert_eq!(w.connections(), vec![(ID(3), ID(0))]);
}

#[test]
fn finish_interaction_drops_same_node_target() {
    let mut w: NodeWorld<u8, u8> = NodeWorld::default();
    w.create_node(v(0.0, 0.0), &adder());
    let mut mode = InteractingMode::DrawingConnection(DrawingConnection::FromInput(ID(0)));
    let mut hovered = Some(ID(2));
    w.finish_interaction(&mut mode, &mut hovered, true, true);
    assert_eq!(hovered, None);
    assert!(matches!(mode, InteractingMode::Idle));
    assert!(w.connections().is_empty());
    assert!(matches!(w.ports.get(ID(0)).connection_kind, PortKind::Input(None)));
}

#[test]
fn finish_interaction_without_pointer_only_ends_drawing() {
    let mut w: NodeWorld<u8, u8> = NodeWorld::default();
    w.create_node(v(0.0, 0.0), &adder());
    w.create_node(v(0.0, 0.0), &constant());
    let mut mode = InteractingMode::DrawingConnection(DrawingConnection::FromInput(ID(0)));
    let mut hovered = Some(ID(3));
    w.finish_interaction(&mut mode, &mut hovered, false, true);
    assert_eq!(hovered, Some(ID(3)));
    assert!(matches!(mode, InteractingMode::Idle));
    assert!(w.connections().is_empty());
    let mut idle = InteractingMode::Idle;
    w.finish_interaction(&mut idle, &mut hovered, true, true);
    assert!(matches!(idle, InteractingMode::Idle));
    assert_eq!(hovered, Some(ID(3)));
}

#[test]
fn observe_port_starts_releases_and_hovers() {
    let mut w: NodeWorld<u8, u8> = NodeWorld::default();
    w.create_node(v(0.0, 0.0), &adder());
    let idle = InteractingMode::Idle;
    let mut mode = InteractingMode::Idle;
    let mut hovered = None;
    let mut released = false;
    w.observe_port(ID(2), &idle, &mut mode, &mut hovered, &mut released, true, false, true);
    assert!(matches!(mode, InteractingMode::DrawingConnection(DrawingConnection::FromOutput(ID(2)))));
    assert_eq!(hovered, Some(ID(2)));
    assert!(!released);
    let from_out = mode;
    w.observe_port(ID(1), &from_out, &mut mode, &mut hovered, &mut released, false, true, true);
    assert_eq!(hovered, Some(ID(1)));
    assert!(released);
    w.observe_port(ID(2), &from_out, &mut mode, &mut hovered, &mut released, false, false, true);
    assert_eq!(hovered, Some(ID(1)));
    assert!(matches!(mode, InteractingMode::DrawingConnection(DrawingConnection::FromOutput(ID(2)))));
}

#[test]
fn observe_node_goes_idle_on_drag_stop_only() {
    let mut mode = InteractingMode::DrawingConnection(DrawingConnection::FromInput(ID(0)));
    mode.observe_node(true, false, true, true);
    assert!(matches!(mode, InteractingMode::DrawingConnection(_)));
    mode.observe_node(false, false, false, true);
    assert!(matches!(mode, InteractingMode::DrawingConnection(_)));
    mode.observe_node(true, false, false, true);
    assert!(matches!(mode, InteractingMode::Idle));
}

#[test]
fn connecting_keeps_port_order() {
    let mut w: NodeWorld<u8, u8> = NodeWorld::default();
    w.create_node(v(0.0, 0.0), &adder());
    w.create_node(v(0.0, 0.0), &constant());
    let before = w.ports.ids().clone();
    w.complete_connection(&DrawingConnection::FromInput(ID(1)), Some(ID(3)));
    assert_eq!(w.ports.ids().clone(), before);
    let names: Vec<String> = w.ports.iter().map(|p| p.port_info.name.clone()).collect();
    assert_eq!(names, vec!["A", "B", "Out", ""]);
}

fn port_event(port: ID, drag_started: bool, drag_stopped: bool, pointer_over: bool) -> FrameEvent {
    FrameEvent::Port { port, drag_started, drag_stopped, pointer_over }
}

#[test]
fn act_frame_draws_then_connects_over_frames() {
    let mut w: NodeWorld<u8, u8> = NodeWorld::default();
    w.create_node(v(0.0, 0.0), &adder());
    w.create_node(v(0.0, 0.0), &constant());
    let mut mode = InteractingMode::Idle;
    let mut hovered = None;
    // Frame 1: a drag starts on the constant's output.
    let drawn = w.act_frame(&mut mode, &mut hovered, &[port_event(ID(3), true, false, true)], true);
    assert!(matches!(drawn, Some(DrawingConnection::FromOutput(ID(3)))));
    assert!(matches!(mode, InteractingMode::DrawingConnection(DrawingConnection::FromOutput(ID(3)))));
    // Hovering was judged in the idle mode the frame began in, then snapped away from the same node.
    assert_eq!(hovered, None);
    // Frame 2: the pointer is over input A and the drag stops.
    let events = [
        FrameEvent::Node { drag_started: false, dragged: false, drag_stopped: false },
        port_event(ID(0), false, false, true),
        port_event(ID(3), false, true, false),
    ];
    let drawn = w.act_frame(&mut mode, &mut hovered, &events, true);
    assert!(matches!(drawn, Some(DrawingConnection::FromOutput(ID(3)))));
    assert!(matches!(mode, InteractingMode::Idle));
    assert_eq!(hovered, Some(ID(0)));
    assert_eq!(w.connections(), vec![(ID(3), ID(0))]);
}

#[test]
fn act_frame_idle_hovers_and_node_stop_ends_drawing() {
    let mut w: NodeWorld<u8, u8> = NodeWorld::default();
    w.create_node(v(0.0, 0.0), &adder());
    let mut mode = InteractingMode::Idle;
    let mut hovered = Some(ID(2));
    let drawn = w.act_frame(&mut mode, &mut hovered, &[port_event(ID(1), false, false, true)], true);
    assert!(drawn.is_none());
    assert_eq!(hovered, Some(ID(1)));
    let mut idle = InteractingMode::Idle;
    let events = [
        port_event(ID(0), true, false, false),
        FrameEvent::Node { drag_started: false, dragged: false, drag_stopped: true },
    ];
    let drawn = w.act_frame(&mut idle, &mut hovered, &events, false);
    assert!(drawn.is_none());
    assert!(matches!(idle, InteractingMode::Idle));
    assert_eq!(hovered, None);
}

#[test]
fn node_moves_only_when_idle_and_dragging() {
    let idle = InteractingMode::Idle;
    let drawing = InteractingMode::DrawingConnection(DrawingConnection::FromInput(ID(0)));
    assert!(idle.node_moves(false, true));
    assert!(!idle.node_moves(true, true));
    assert!(!idle.node_moves(false, false));
    assert!(!drawing.node_moves(false, true));
}

#[test]
fn preview_ends_run_from_output_side() {
    let from_in = DrawingConnection::FromInput(ID(4));
    let from_out = DrawingConnection::FromOutput(ID(5));
    assert_eq!(from_in.preview_ends(None), (LineEnd::Pointer, LineEnd::Port(ID(4))));
    assert_eq!(from_in.preview_ends(Some(ID(9))), (LineEnd::Port(ID(9)), LineEnd::Port(ID(4))));
    assert_eq!(from_out.preview_ends(None), (LineEnd::Port(ID(5)), LineEnd::Pointer));
    assert_eq!(from_out.preview_ends(Some(ID(9))), (LineEnd::Port(ID(5)), LineEnd::Port(ID(9))));
}
