//! Decisions around the polyhedral analysis.

use autolala::analysis::{
    all_instantiated, domain_guard, guarded_total, involved_input_dims, merge_target, missing_names,
    positions_as_moved, set_dim_name, total_count_piece,
};

fn names(names: &[&str]) -> Vec<Option<String>> {
    names
        .iter()
        .map(|name| if name.is_empty() { None } else { Some(name.to_string()) })
        .collect()
}

#[test]
fn guards_are_what_stands_between_colon_and_brace() {
    assert_eq!(domain_guard("[N] -> {  : N > 0 }"), "N > 0");
    assert_eq!(domain_guard("[N] -> { [i] : N > 0 }"), "");
    assert_eq!(domain_guard("{  }"), "");
    assert_eq!(domain_guard("[N] -> {  : N > 0"), "N > 0");
}

#[test]
fn guarded_totals_show_their_guard() {
    assert_eq!(guarded_total("", "N^2"), "N^2");
    assert_eq!(guarded_total("N > 0", "N^2"), "\\left[N > 0\\right] \\Rightarrow N^2");
}

#[test]
fn totals_are_one_piece() {
    assert_eq!(total_count_piece(1), Ok(()));
    assert_eq!(total_count_piece(0), Err("no total count found".to_string()));
    assert_eq!(
        total_count_piece(3),
        Err("total count is piecewise (3 pieces); cannot collapse it into a single polynomial"
            .to_string())
    );
}

#[test]
fn unnamed_dimensions_get_names() {
    assert_eq!(
        missing_names(&vec![true, false, true, false], 'i'),
        vec![(1, "i1".to_string()), (3, "i3".to_string())]
    );
    assert_eq!(missing_names(&vec![true], 'p'), vec![]);
}

#[test]
fn instantiated_blocks_have_no_symbol_left() {
    assert!(all_instantiated(&names(&[])));
    assert!(all_instantiated(&names(&["N", "", "i0"])));
    assert!(!all_instantiated(&names(&["N", "p0"])));
}

#[test]
fn involved_dimensions_ascend() {
    let symbols = vec!["a".to_string(), "c".to_string()];
    let dims =
        involved_input_dims(&names(&["a", "b", "", "", "c"]), &symbols, &vec![
            false, true, true, false, false,
        ]);
    assert_eq!(dims, vec![0, 2, 4]);
    assert_eq!(positions_as_moved(&dims), vec![0, 1, 2]);
}

#[test]
fn set_dimensions_are_named_after_inputs_first() {
    let (inputs, outputs) = (names(&["i0", ""]), names(&["o0", "o1", ""]));
    assert_eq!(set_dim_name(&inputs, &outputs, 0), "i0");
    assert_eq!(set_dim_name(&inputs, &outputs, 1), "o1");
    assert_eq!(set_dim_name(&inputs, &outputs, 2), "unnamed");
    assert_eq!(set_dim_name(&inputs, &outputs, 9), "unnamed");
}

#[test]
fn pieces_merge_into_the_first_equal_one() {
    assert_eq!(merge_target(&vec![false, true, true]), Some(1));
    assert_eq!(merge_target(&vec![false, false]), None);
    assert_eq!(merge_target(&vec![]), None);
}
