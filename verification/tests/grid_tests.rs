use jump10::grid::{
    cell_at, line_bounds, parse_grid, passable_at, set_cell, take_markers, text_chars, tile_at,
    LEVEL_COLS, LEVEL_ROWS,
};

#[test]
fn parse_grid_pads_to_level_size() {
    let g = parse_grid("ab\ncd");
    assert_eq!(g.len(), LEVEL_ROWS);
    for row in &g {
        assert_eq!(row.len(), LEVEL_COLS);
    }
    assert_eq!(g[0][0], 'a');
    assert_eq!(g[0][1], 'b');
    assert_eq!(g[0][2], ' ');
    assert_eq!(g[1][1], 'd');
    assert_eq!(g[2][0], ' ');
    assert_eq!(g[12][59], ' ');
}

#[test]
fn parse_grid_strips_carriage_returns() {
    let g = parse_grid("a\r\nb\r\n");
    assert_eq!(g[0][0], 'a');
    assert_eq!(g[0][1], ' ');
    assert_eq!(g[1][0], 'b');
    assert_eq!(g[1][1], ' ');
}

#[test]
fn parse_grid_truncates_long_lines_and_extra_rows() {
    let long: String = "x".repeat(70) + "\n";
    let mut text = String::new();
    for _ in 0..15 {
        text.push_str(&long);
    }
    let g = parse_grid(&text);
    assert_eq!(g.len(), 13);
    assert!(g.iter().all(|r| r.len() == 60 && r.iter().all(|&c| c == 'x')));
}

#[test]
fn parse_grid_empty_text_is_blank() {
    let g = parse_grid("");
    assert_eq!(g.len(), 13);
    assert!(g.iter().all(|r| r.iter().all(|&c| c == ' ')));
}

#[test]
fn parse_grid_keeps_empty_lines() {
    let g = parse_grid("\n\nz");
    assert_eq!(g[0][0], ' ');
    assert_eq!(g[1][0], ' ');
    assert_eq!(g[2][0], 'z');
}

#[test]
fn parse_grid_handles_multibyte_chars() {
    let g = parse_grid("é#\n");
    assert_eq!(g[0][0], 'é');
    assert_eq!(g[0][1], '#');
}

#[test]
fn line_bounds_split_like_lines() {
    let text = "ab\r\n\ncd\n";
    let chars = text_chars(text);
    assert_eq!(chars.len(), 8);
    let b = line_bounds(&chars);
    let lines: Vec<String> = b.iter().map(|&(s, e)| chars[s..e].iter().collect()).collect();
    let expected: Vec<String> = text.lines().map(|l| l.to_string()).collect();
    assert_eq!(lines, expected);
    let chars2 = text_chars("x\ry");
    let b2 = line_bounds(&chars2);
    assert_eq!(b2, vec![(0, 3)]);
}

#[test]
fn markers_are_taken_in_reading_order() {
    let mut g = parse_grid("!  !\n !");
    let cells = take_markers(&mut g, '!');
    assert_eq!(cells, vec![(0, 0), (0, 3), (1, 1)]);
    assert!(g.iter().all(|r| !r.contains(&'!')));
}

#[test]
fn tiles_outside_the_grid_read_as_space() {
    let mut g = parse_grid("#H=z");
    assert_eq!(tile_at(&g, -1, 0), ' ');
    assert_eq!(tile_at(&g, 0, 13), ' ');
    assert_eq!(tile_at(&g, 3, 0), 'z');
    assert!(!passable_at(&g, 0, 0));
    assert!(!passable_at(&g, 1, 0));
    assert!(!passable_at(&g, 2, 0));
    assert!(passable_at(&g, 3, 0));
    assert!(!passable_at(&g, 60, 0));
    set_cell(&mut g, 0, 3, '^');
    assert_eq!(cell_at(&g, 3, 0), '^');
}

#[test]
fn parse_grid_reads_crlf_text_as_lf_text() {
    let lf = "#  $\n== *\n\n  @\n";
    let crlf = lf.replace('\n', "\r\n");
    assert_eq!(parse_grid(&crlf), parse_grid(lf));
}

#[test]
fn parse_grid_ignores_text_after_the_last_row() {
    let rows: Vec<String> = (0..LEVEL_ROWS).map(|r| format!("row{}", r)).collect();
    let a = rows.join("\n");
    let more = format!("{}\n{}", a, "extra line\nand another");
    assert_eq!(parse_grid(&more), parse_grid(&a));
}

#[test]
fn parse_grid_reads_back_its_rendered_grid() {
    let text = "# $ @\n==  *\n\n  /\\ z\n";
    let g = parse_grid(text);
    let rendered: Vec<String> = g.iter().map(|row| row.iter().collect::<String>()).collect();
    assert_eq!(parse_grid(&rendered.join("\n")), g);
}
