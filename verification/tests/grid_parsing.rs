use director_core::scripting::grid::{parse_grid_line, parse_grid_placement, GridPlacement};

// The placement rules written with the standard library's string functions,
// to hold the verified parser against.
fn std_placement(s: &str) -> GridPlacement {
    let s = s.trim();
    if s.starts_with("span") {
        let val = s.trim_start_matches("span").trim().parse::<u16>().unwrap_or(1);
        GridPlacement::Span(val)
    } else if let Ok(val) = s.parse::<i16>() {
        GridPlacement::Line(val)
    } else {
        GridPlacement::Auto
    }
}

fn std_line(s: &str) -> (GridPlacement, GridPlacement) {
    if s.contains('/') {
        let parts: Vec<&str> = s.split('/').collect();
        (std_placement(parts[0]), if parts.len() > 1 { std_placement(parts[1]) } else { GridPlacement::Auto })
    } else {
        (std_placement(s), GridPlacement::Auto)
    }
}

const SAMPLES: &[&str] = &[
    "", " ", "1", "-1", "+3", "0", "-0", "42", " 7 ", "\t8\n", "\u{3000}9\u{a0}", "\u{2003}-4\u{2029}", "32767",
    "32768", "-32768", "-32769", "99999", "1.5", "x", "-", "+", "--1", "+-1", "span", "span 2", "span2", "spanspan 3",
    " span  4 ", "span +5", "span 65535", "span 65536", "span x", "span -1", "spa 2", "SPAN 2", "auto", "١٢", "1 2",
    "span\u{85}6", "\u{1680}12\u{205f}", "\u{180e}1",
];

#[test]
fn placements_match_the_standard_library() {
    for s in SAMPLES {
        assert_eq!(parse_grid_placement(s), std_placement(s), "placement of {s:?}");
    }
}

#[test]
fn lines_match_the_standard_library() {
    let lines = ["1 / 3", "span 2 / 5", "2/", "/4", "1 / 2 / 3", "//", "auto / span 2", "-1/-2", " 3 ", "a/b/c/d", ""];
    for s in lines.iter().chain(SAMPLES.iter()) {
        assert_eq!(parse_grid_line(s), std_line(s), "line {s:?}");
    }
}

#[test]
fn placement_examples() {
    assert_eq!(parse_grid_placement("2"), GridPlacement::Line(2));
    assert_eq!(parse_grid_placement(" -1 "), GridPlacement::Line(-1));
    assert_eq!(parse_grid_placement("span 3"), GridPlacement::Span(3));
    assert_eq!(parse_grid_placement("span"), GridPlacement::Span(1));
    assert_eq!(parse_grid_placement("auto"), GridPlacement::Auto);
    assert_eq!(parse_grid_line("1 / span 2"), (GridPlacement::Line(1), GridPlacement::Span(2)));
    assert_eq!(parse_grid_line("4"), (GridPlacement::Line(4), GridPlacement::Auto));
}
