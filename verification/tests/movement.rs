use ui_base::movement::{
    clamp_offset, column_display_offset, horizontal_target, plan_vertical_move,
    preferred_display_column, selection_anchor, MoveDirection,
};

#[test]
fn vertical_moves_stay_within_the_display_rows() {
    assert_eq!(plan_vertical_move(5, -2, 10), (3, MoveDirection::Up));
    assert_eq!(plan_vertical_move(1, -5, 10), (0, MoveDirection::Up));
    assert_eq!(plan_vertical_move(8, 5, 10), (9, MoveDirection::Down));
    assert_eq!(plan_vertical_move(4, 0, 10), (4, MoveDirection::Down));
    assert_eq!(plan_vertical_move(0, 3, 0), (0, MoveDirection::Down));
    assert_eq!(plan_vertical_move(3, isize::MIN, 10), (0, MoveDirection::Up));
    assert_eq!(
        plan_vertical_move(usize::MAX - 1, isize::MAX, usize::MAX),
        (usize::MAX - 1, MoveDirection::Down)
    );
}

#[test]
fn caret_offsets_are_clamped_to_the_text() {
    assert_eq!(clamp_offset(7, 5), 5);
    assert_eq!(clamp_offset(3, 5), 3);
    assert_eq!(clamp_offset(0, 0), 0);
}

#[test]
fn preferred_column_is_measured_from_the_display_line_start() {
    assert_eq!(preferred_display_column(10, 4), 6);
    assert_eq!(preferred_display_column(4, 4), 0);
    assert_eq!(preferred_display_column(2, 4), 0);
}

#[test]
fn kept_column_is_cut_to_the_target_line() {
    assert_eq!(column_display_offset(10, 3, 5), 13);
    assert_eq!(column_display_offset(10, 8, 5), 15);
    assert_eq!(column_display_offset(0, 0, 0), 0);
}

#[test]
fn horizontal_moves_collapse_a_selection_first() {
    assert_eq!(horizontal_target(&(2..5), 9, true), 2);
    assert_eq!(horizontal_target(&(2..5), 9, false), 5);
    assert_eq!(horizontal_target(&(3..3), 9, true), 9);
    assert_eq!(horizontal_target(&(3..3), 1, false), 1);
}

#[test]
fn vertical_moves_with_a_selection_start_inside_it() {
    assert_eq!(selection_anchor(&(0..4), true), 0);
    assert_eq!(selection_anchor(&(2..4), true), 1);
    assert_eq!(selection_anchor(&(2..4), false), 3);
    assert_eq!(selection_anchor(&(0..0), false), 0);
}
