use std::collections::HashMap;
use turtle::{l_system_step, Coord, Path};

fn sierpinski_rules() -> HashMap<char, &'static str> {
    let mut rules = HashMap::new();
    rules.insert('A', "+B-A-B+");
    rules.insert('B', "-A+B+A-");
    rules
}

#[test]
fn one_step_rewrites_each_symbol() {
    let rules = sierpinski_rules();
    assert_eq!(l_system_step("A".to_string(), &rules), "+B-A-B+");
    assert_eq!(l_system_step("A+B".to_string(), &rules), "+B-A-B+" .to_string() + "+" + "-A+B+A-");
    assert_eq!(l_system_step(String::new(), &rules), "");
    assert_eq!(l_system_step("xyz€".to_string(), &rules), "xyz€");
}

#[test]
fn eight_steps_give_one_segment_per_symbol() {
    let rules = sierpinski_rules();
    let mut state = "A".to_string();
    for _ in 0..8 {
        state = l_system_step(state, &rules);
    }
    let strokes = state.chars().filter(|&ch| ch == 'A' || ch == 'B').count();
    assert_eq!(strokes, 6561);
    let mut p = Path::new();
    let mut x = 0.0f32;
    for ch in state.chars() {
        if ch == 'A' || ch == 'B' {
            x += 2.0;
            p.line_to(Coord { bits: x.to_bits() }, Coord { bits: 0.0f32.to_bits() });
        }
    }
    assert_eq!(p.segments().len(), strokes);
}
