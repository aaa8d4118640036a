use rcspp_approx::input::{
    build_graph, is_blank, parse_edges, read_number, read_record, skip_line, skip_spaces,
    skip_word, InputError, Line,
};

#[test]
fn an_edge_list_is_read_line_by_line() {
    let text = b"0 1 2 3\n0 2 3 1\n\n1 3 4 2\n";
    assert_eq!(
        parse_edges(text),
        Ok(vec![(0, 1, 2, 3), (0, 2, 3, 1), (1, 3, 4, 2)])
    );
}

#[test]
fn the_last_line_needs_no_line_feed() {
    assert_eq!(parse_edges(b"4 5 2 1"), Ok(vec![(4, 5, 2, 1)]));
    assert_eq!(parse_edges(b"4 5 2 1\n7 8 9 10"), Ok(vec![(4, 5, 2, 1), (7, 8, 9, 10)]));
}

#[test]
fn blank_lines_and_white_space_are_passed_over() {
    assert_eq!(parse_edges(b""), Ok(vec![]));
    assert_eq!(parse_edges(b"\n\n  \t \n\r\n"), Ok(vec![]));
    assert_eq!(
        parse_edges(b"  1\t2   3 \x0b4  \r\n\t\n5 6 7 8\r\n"),
        Ok(vec![(1, 2, 3, 4), (5, 6, 7, 8)])
    );
}

#[test]
fn fields_behind_the_fourth_are_not_looked_at() {
    assert_eq!(parse_edges(b"1 2 3 4 five 6\n"), Ok(vec![(1, 2, 3, 4)]));
}

#[test]
fn a_plus_sign_may_lead_a_number() {
    assert_eq!(parse_edges(b"+1 +2 +3 +4\n"), Ok(vec![(1, 2, 3, 4)]));
    assert_eq!(parse_edges(b"+ 2 3 4\n"), Err(InputError::BadNumber));
    assert_eq!(parse_edges(b"++1 2 3 4\n"), Err(InputError::BadNumber));
}

#[test]
fn too_few_fields_are_turned_down() {
    assert_eq!(parse_edges(b"1 2 3\n"), Err(InputError::MissingField));
    assert_eq!(parse_edges(b"1\n"), Err(InputError::MissingField));
    assert_eq!(parse_edges(b"0 1 2 3\n4 5\n6 7 8 9\n"), Err(InputError::MissingField));
    assert_eq!(parse_edges(b"x y z\n"), Err(InputError::MissingField));
}

#[test]
fn what_is_no_number_is_turned_down() {
    assert_eq!(parse_edges(b"a 2 3 4\n"), Err(InputError::BadNumber));
    assert_eq!(parse_edges(b"1 -2 3 4\n"), Err(InputError::BadNumber));
    assert_eq!(parse_edges(b"1 2 3.0 4\n"), Err(InputError::BadNumber));
    assert_eq!(parse_edges(b"1 2 3 4x\n"), Err(InputError::BadNumber));
    assert_eq!(parse_edges(b"1 2 3 \xc3\xa9\n"), Err(InputError::BadNumber));
}

#[test]
fn numbers_must_fit_their_types() {
    assert_eq!(
        parse_edges(b"18446744073709551615 0 4294967295 4294967295\n"),
        Ok(vec![(usize::MAX, 0, u32::MAX, u32::MAX)])
    );
    assert_eq!(
        parse_edges(b"18446744073709551616 0 1 1\n"),
        Err(InputError::BadNumber)
    );
    assert_eq!(parse_edges(b"0 0 4294967296 1\n"), Err(InputError::BadNumber));
    assert_eq!(parse_edges(b"0 0 1 4294967296\n"), Err(InputError::BadNumber));
    assert_eq!(
        parse_edges(b"0 0 1 99999999999999999999999999999999999999999999\n"),
        Err(InputError::BadNumber)
    );
    assert_eq!(parse_edges(b"0000000000000000000000007 0 01 1\n"), Ok(vec![(7, 0, 1, 1)]));
}

#[test]
fn the_first_bad_line_decides() {
    assert_eq!(parse_edges(b"1 2 3 4\nx 1 1 1\n1 2\n"), Err(InputError::BadNumber));
    assert_eq!(parse_edges(b"1 2 3 4\n1 2\nx 1 1 1\n"), Err(InputError::MissingField));
}

#[test]
fn white_space_is_the_ascii_kind() {
    for b in 0..=255u8 {
        assert_eq!(is_blank(b), b == b' ' || (9..=13).contains(&b));
    }
}

#[test]
fn scanning_stops_where_it_should() {
    let text = b"  ab\tcd \nxy";
    assert_eq!(skip_spaces(text, 0, 8), 2);
    assert_eq!(skip_spaces(text, 2, 8), 2);
    assert_eq!(skip_spaces(text, 7, 8), 8);
    assert_eq!(skip_spaces(text, 0, 1), 1);
    assert_eq!(skip_word(text, 2, 8), 4);
    assert_eq!(skip_word(text, 4, 8), 4);
    assert_eq!(skip_word(text, 5, 6), 6);
    assert_eq!(skip_line(text, 0), 8);
    assert_eq!(skip_line(text, 8), 8);
    assert_eq!(skip_line(text, 9), 11);
    assert_eq!(skip_line(text, 11), 11);
}

#[test]
fn numbers_are_read_within_their_bounds() {
    let text = b"x123y+45";
    assert_eq!(read_number(text, 1, 4, 1000), Some(123));
    assert_eq!(read_number(text, 1, 4, 123), Some(123));
    assert_eq!(read_number(text, 1, 4, 122), None);
    assert_eq!(read_number(text, 1, 3, 1000), Some(12));
    assert_eq!(read_number(text, 0, 4, 1000), None);
    assert_eq!(read_number(text, 1, 5, 1000), None);
    assert_eq!(read_number(text, 2, 2, 1000), None);
    assert_eq!(read_number(text, 5, 8, 1000), Some(45));
    assert_eq!(read_number(text, 5, 6, 1000), None);
}

#[test]
fn a_record_is_one_of_three_things() {
    assert!(matches!(read_record(b"   ", 0, 3), Line::Blank));
    assert!(matches!(read_record(b"1 2 3 4", 0, 7), Line::Arc((1, 2, 3, 4))));
    assert!(matches!(
        read_record(b"1 2 3 4", 0, 6),
        Line::Broken(InputError::MissingField)
    ));
    assert!(matches!(
        read_record(b"1 2 3 z", 0, 7),
        Line::Broken(InputError::BadNumber)
    ));
    assert!(matches!(read_record(b"9 1 2 3 4", 2, 9), Line::Arc((1, 2, 3, 4))));
}

#[test]
fn adjacency_lists_keep_the_order_of_the_edge_list() {
    let arcs = vec![(2, 0, 5, 6), (0, 1, 2, 3), (2, 3, 7, 8), (0, 2, 3, 1), (2, 0, 1, 1)];
    assert_eq!(
        build_graph(&arcs),
        Ok(vec![
            vec![(1, 2, 3), (2, 3, 1)],
            vec![],
            vec![(0, 5, 6), (3, 7, 8), (0, 1, 1)],
            vec![],
        ])
    );
}

#[test]
fn the_vertex_count_is_one_above_the_greatest_index() {
    assert_eq!(build_graph(&vec![]), Ok(vec![vec![]]));
    assert_eq!(build_graph(&vec![(0, 0, 1, 1)]), Ok(vec![vec![(0, 1, 1)]]));
    assert_eq!(build_graph(&vec![(0, 5, 1, 1)]).map(|g| g.len()), Ok(6));
    assert_eq!(build_graph(&vec![(5, 0, 1, 1)]).map(|g| g.len()), Ok(6));
}

#[test]
fn the_greatest_index_leaves_no_room_for_the_count() {
    assert_eq!(
        build_graph(&vec![(0, usize::MAX, 1, 1)]),
        Err(InputError::TooManyVertices)
    );
    assert_eq!(
        build_graph(&vec![(usize::MAX, 0, 1, 1)]),
        Err(InputError::TooManyVertices)
    );
}

#[test]
fn the_sample_file_gives_the_sample_graph() {
    let text = b"0 1 2 3\n0 2 3 1\n1 3 4 2\n1 4 1 5\n2 3 1 3\n2 4 5 2\n3 5 3 2\n4 5 2 1\n";
    let graph = build_graph(&parse_edges(text).unwrap()).unwrap();
    assert_eq!(
        graph,
        vec![
            vec![(1, 2, 3), (2, 3, 1)],
            vec![(3, 4, 2), (4, 1, 5)],
            vec![(3, 1, 3), (4, 5, 2)],
            vec![(5, 3, 2)],
            vec![(5, 2, 1)],
            vec![],
        ]
    );
}
