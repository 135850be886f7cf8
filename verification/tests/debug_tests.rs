use rustcycles::colors::{blue, blue2, cyan, magenta, white, yellow};
use rustcycles::debug::{format_pairs, Color, DebugContext, DebugShape, Shape};
use rustcycles::messages::Vec3;

fn v(x: f32, y: f32, z: f32) -> Vec3 {
    Vec3 { x: x.to_bits(), y: y.to_bits(), z: z.to_bits() }
}

fn pairs(items: &[(&str, i32)]) -> Vec<(String, String)> {
    items.iter().map(|(name, value)| (name.to_string(), format!("{}", value))).collect()
}

#[test]
fn test_soft_assert() {
    // Identity function which counts how many times it's executed
    // to make sure each input is evaluated once.
    let mut execution_count = 0;
    let mut id = |x| {
        execution_count += 1;
        x
    };
    let mut debug = DebugContext::new("sv", white());

    debug.soft_assert(2 + 2 == id(4), "2 + 2 == id(4)");
    debug.soft_assert(2 + 2 == id(5), "2 + 2 == id(5)");

    debug.soft_assert(2 + 2 == id(4), &format!("custom message {}", 42));
    debug.soft_assert(2 + 2 == id(5), &format!("custom message {}", 42));

    // In expression position
    #[allow(unreachable_patterns)]
    let nothing = match 0 {
        _ => debug.soft_assert(2 + 2 == id(4), "2 + 2 == id(4)"),
        _ => debug.soft_assert(2 + 2 == id(5), "2 + 2 == id(5)"),

        _ => debug.soft_assert(2 + 2 == id(4), &format!("custom message {}", 42)),
        _ => debug.soft_assert(2 + 2 == id(5), &format!("custom message {}", 42)),
    };
    assert_eq!(nothing, ());

    assert_eq!(execution_count, 4 + 1); // +1 because only one match arm runs

    assert_eq!(
        debug.log,
        vec![
            "sv soft assertion failed: 2 + 2 == id(5)".to_string(),
            "sv soft assertion failed: custom message 42".to_string(),
        ]
    );
}

#[test]
fn test_logging_compiles() {
    let x = 5;
    let y = 6;
    let mut debug = DebugContext::new("cl", white());

    debug.logf("");
    debug.logf("abcd");
    debug.logf(&format!("x: {}, y: {y}, 7: {}", x, 7));

    debug.logd(&pairs(&[]));
    debug.logd(&pairs(&[("x", x)]));
    debug.logd(&pairs(&[("x", x), ("y", y), ("7", 7)]));

    debug.textf("");
    debug.textf("abcd");
    debug.textf(&format!("x: {}, y: {y}, 7: {}", x, 7));

    debug.textd(&pairs(&[]));
    debug.textd(&pairs(&[("x", x)]));
    debug.textd(&pairs(&[("x", x), ("y", y), ("7", 7)]));

    // In expression position
    #[allow(unreachable_patterns)]
    let nothing = match 0 {
        _ => debug.logf(""),
        _ => debug.logf("abcd"),
        _ => debug.logf(&format!("x: {}, y: {y}, 7: {}", x, 7)),

        _ => debug.logd(&pairs(&[])),
        _ => debug.logd(&pairs(&[("x", x)])),
        _ => debug.logd(&pairs(&[("x", x), ("y", y), ("7", 7)])),

        _ => debug.textf(""),
        _ => debug.textf("abcd"),
        _ => debug.textf(&format!("x: {}, y: {y}, 7: {}", x, 7)),

        _ => debug.textd(&pairs(&[])),
        _ => debug.textd(&pairs(&[("x", x)])),
        _ => debug.textd(&pairs(&[("x", x), ("y", y), ("7", 7)])),
    };
    assert_eq!(nothing, ());

    let expected = vec![
        "cl ".to_string(),
        "cl abcd".to_string(),
        "cl x: 5, y: 6, 7: 7".to_string(),
        "cl ".to_string(),
        "cl x: 5".to_string(),
        "cl x: 5, y: 6, 7: 7".to_string(),
    ];
    assert_eq!(debug.texts, expected);
    let mut logged = expected.clone();
    logged.push("cl ".to_string());
    assert_eq!(debug.log, logged);
}

#[test]
fn test_drawing_compiles_no_import() {
    let mut debug = DebugContext::new("sv", white());
    let none = 0.0f32.to_bits();
    let five = 5.0f32.to_bits();

    debug.line(v(1.0, 2.0, 3.0), v(4.0, 5.0, 6.0), none, debug.default_color());
    debug.line(v(1.0, 2.0, 3.0), v(4.0, 5.0, 6.0), (5 as f32).to_bits(), debug.default_color());
    debug.line(v(1.0, 2.0, 3.0), v(4.0, 5.0, 6.0), five, debug.default_color());
    debug.line(v(1.0, 2.0, 3.0), v(4.0, 5.0, 6.0), (5 as f32).to_bits(), blue());
    debug.line(v(1.0, 2.0, 3.0), v(4.0, 5.0, 6.0), five, blue());

    debug.arrow(v(1.0, 2.0, 3.0), v(4.0, 5.0, 6.0), none, debug.default_color());
    debug.arrow(v(1.0, 2.0, 3.0), v(4.0, 5.0, 6.0), (5 as f32).to_bits(), debug.default_color());
    debug.arrow(v(1.0, 2.0, 3.0), v(4.0, 5.0, 6.0), five, debug.default_color());
    debug.arrow(v(1.0, 2.0, 3.0), v(4.0, 5.0, 6.0), (5 as f32).to_bits(), blue());
    debug.arrow(v(1.0, 2.0, 3.0), v(4.0, 5.0, 6.0), five, blue());

    debug.cross(v(1.0, 2.0, 3.0), none, debug.default_color());
    debug.cross(v(1.0, 2.0, 3.0), (5 as f32).to_bits(), debug.default_color());
    debug.cross(v(1.0, 2.0, 3.0), five, debug.default_color());
    debug.cross(v(1.0, 2.0, 3.0), (5 as f32).to_bits(), blue());
    debug.cross(v(1.0, 2.0, 3.0), five, blue());

    // In expression position
    #[allow(unreachable_patterns)]
    let nothing = match 0 {
        _ => debug.line(v(1.0, 2.0, 3.0), v(4.0, 5.0, 6.0), none, debug.default_color()),
        _ => debug.line(v(1.0, 2.0, 3.0), v(4.0, 5.0, 6.0), five, debug.default_color()),
        _ => debug.line(v(1.0, 2.0, 3.0), v(4.0, 5.0, 6.0), five, blue()),

        _ => debug.arrow(v(1.0, 2.0, 3.0), v(4.0, 5.0, 6.0), none, debug.default_color()),
        _ => debug.arrow(v(1.0, 2.0, 3.0), v(4.0, 5.0, 6.0), five, debug.default_color()),
        _ => debug.arrow(v(1.0, 2.0, 3.0), v(4.0, 5.0, 6.0), five, blue()),

        _ => debug.cross(v(1.0, 2.0, 3.0), none, debug.default_color()),
        _ => debug.cross(v(1.0, 2.0, 3.0), five, debug.default_color()),
        _ => debug.cross(v(1.0, 2.0, 3.0), five, blue()),
    };
    assert_eq!(nothing, ());

    assert_eq!(debug.shapes.len(), 16);
    assert_eq!(
        debug.shapes[0],
        DebugShape {
            shape: Shape::Line { begin: v(1.0, 2.0, 3.0), end: v(4.0, 5.0, 6.0) },
            time: 0,
            color: Color { r: 255, g: 255, b: 255, a: 255 },
        }
    );
    assert_eq!(
        debug.shapes[9],
        DebugShape {
            shape: Shape::Arrow { begin: v(1.0, 2.0, 3.0), end: v(4.0, 5.0, 6.0) },
            time: 0x40a0_0000,
            color: Color { r: 0, g: 0, b: 255, a: 255 },
        }
    );
    assert_eq!(
        debug.shapes[15],
        DebugShape {
            shape: Shape::Line { begin: v(1.0, 2.0, 3.0), end: v(4.0, 5.0, 6.0) },
            time: 0,
            color: Color { r: 255, g: 255, b: 255, a: 255 },
        }
    );
}

#[test]
fn format_pairs_joins_names_and_values() {
    assert_eq!(format_pairs(&pairs(&[])), "");
    assert_eq!(format_pairs(&pairs(&[("x", 5)])), "x: 5");
    assert_eq!(format_pairs(&pairs(&[("x", 5), ("y", 6)])), "x: 5, y: 6");
}

#[test]
fn soft_assert_that_holds_changes_nothing() {
    let mut debug = DebugContext::new("sv", white());
    debug.textf("kept");
    debug.soft_assert(true, "never shown");
    assert!(debug.log.is_empty());
    assert_eq!(debug.texts, vec!["sv kept".to_string()]);
    assert!(debug.shapes.is_empty());
}

#[test]
fn take_log_empties_the_log_only() {
    let mut debug = DebugContext::new("sv", white());
    debug.logf("one");
    debug.textf("text");
    debug.cross(v(0.0, 0.0, 0.0), 0, blue2());
    let lines = debug.take_log();
    assert_eq!(lines, vec!["sv one".to_string()]);
    assert!(debug.log.is_empty());
    assert_eq!(debug.texts.len(), 1);
    assert_eq!(debug.shapes.len(), 1);
}

#[test]
fn colors_are_opaque() {
    assert_eq!(blue2(), Color { r: 0, g: 100, b: 255, a: 255 });
    assert_eq!(yellow(), Color::opaque(255, 255, 0));
    assert_eq!(magenta(), Color { r: 255, g: 0, b: 255, a: 255 });
    assert_eq!(cyan(), Color { r: 0, g: 255, b: 255, a: 255 });
}
