use nodes_gui::editor_graph::{StateMap, StateValue};
use nodes_gui::node_tools::{
    get_state_char, get_state_char_mut, get_state_f32, get_state_f32_mut, get_state_string,
    get_state_string_mut, input_link,
};
use nodes_gui::storage::ID;

fn sample() -> StateMap {
    StateMap::from_pairs(vec![
        ("c".to_string(), StateValue::Char('q')),
        ("f".to_string(), StateValue::Float(2.5f32.to_bits())),
        ("s".to_string(), StateValue::String("hi".to_string())),
    ])
}

#[test]
fn typed_getters_find_matching_kind_only() {
    let m = sample();
    assert_eq!(get_state_char("c", &m), Some('q'));
    assert_eq!(get_state_char("f", &m), None);
    assert_eq!(get_state_char("missing", &m), None);
    assert_eq!(get_state_f32("f", &m).map(f32::from_bits), Some(2.5));
    assert_eq!(get_state_f32("s", &m), None);
    assert_eq!(get_state_string("s", &m), Some(&"hi".to_string()));
    assert_eq!(get_state_string("c", &m), None);
}

#[test]
fn mut_getters_write_back() {
    let mut m = sample();
    *get_state_char_mut("c", &mut m).unwrap() = 'z';
    assert_eq!(get_state_char("c", &m), Some('z'));
    *get_state_f32_mut("f", &mut m).unwrap() = 4.0f32.to_bits();
    assert_eq!(get_state_f32("f", &m), Some(4.0f32.to_bits()));
    get_state_string_mut("s", &mut m).unwrap().push('!');
    assert_eq!(get_state_string("s", &m), Some(&"hi!".to_string()));
    assert!(get_state_char_mut("f", &mut m).is_none());
    assert!(get_state_f32_mut("nothing", &mut m).is_none());
    assert!(get_state_string_mut("c", &mut m).is_none());
    assert_eq!(get_state_char("c", &m), Some('z'));
}

#[test]
fn later_pairs_replace_earlier_ones() {
    let m = StateMap::from_pairs(vec![
        ("k".to_string(), StateValue::Char('a')),
        ("k".to_string(), StateValue::Char('b')),
    ]);
    assert_eq!(get_state_char("k", &m), Some('b'));
    let mut m2 = StateMap::new();
    m2.insert("k".to_string(), StateValue::Char('x'));
    m2.insert("k".to_string(), StateValue::String("y".to_string()));
    assert_eq!(get_state_char("k", &m2), None);
    assert_eq!(get_state_string("k", &m2), Some(&"y".to_string()));
    let d = m2.clone();
    assert_eq!(get_state_string("k", &d), Some(&"y".to_string()));
}

#[test]
fn input_link_uses_last_entry_with_name() {
    let inputs = vec![
        ("A".to_string(), Some(ID(1))),
        ("B".to_string(), None),
        ("A".to_string(), Some(ID(5))),
    ];
    assert_eq!(input_link("A", &inputs), Some(ID(5)));
    assert_eq!(input_link("B", &inputs), None);
    assert_eq!(input_link("C", &inputs), None);
    let shadowed = vec![("A".to_string(), Some(ID(1))), ("A".to_string(), None)];
    assert_eq!(input_link("A", &shadowed), None);
}
