use k2g::binding::{binding_view, sort_options, toggle_binding};

fn options(v: &[(&str, &str)]) -> Vec<(String, String)> {
    v.iter().map(|(a, b)| (a.to_string(), b.to_string())).collect()
}

fn ids(v: &[&str]) -> Vec<String> {
    v.iter().map(|s| s.to_string()).collect()
}

#[test]
fn options_are_listed_by_id_keeping_ties_in_order() {
    let sorted = sort_options(&options(&[("c", "C"), ("a", "A1"), ("b", "B"), ("a", "A2")]));
    assert_eq!(sorted, options(&[("a", "A1"), ("a", "A2"), ("b", "B"), ("c", "C")]));
}

#[test]
fn only_known_options_are_ticked_and_the_default_comes_first() {
    let opts = options(&[("cnc-2", "Mill B"), ("cnc-1", "Mill A"), ("cnc-3", "Mill C")]);
    let view = binding_view(&opts, &ids(&["cnc-3", "gone", "cnc-1", "cnc-3"]), "cnc-3");
    assert_eq!(view.ordered_options, options(&[("cnc-1", "Mill A"), ("cnc-2", "Mill B"), ("cnc-3", "Mill C")]));
    assert_eq!(view.selected, ids(&["cnc-1", "cnc-3"]));
    assert_eq!(view.default_selected, "cnc-3");
    assert_eq!(view.summary_rows, options(&[("cnc-3", "Mill C"), ("cnc-1", "Mill A")]));
    assert!(!view.requires_default);
}

#[test]
fn without_a_default_the_last_ticked_one_is_shown_as_default() {
    let opts = options(&[("a", "A"), ("b", "B")]);
    let view = binding_view(&opts, &ids(&["b", "a"]), "");
    assert_eq!(view.selected, ids(&["a", "b"]));
    assert_eq!(view.default_selected, "b");
    assert!(view.requires_default);
    assert_eq!(view.summary_rows, options(&[("b", "B"), ("a", "A")]));

    let empty = binding_view(&opts, &Vec::new(), " ");
    assert!(empty.requires_default);
    assert_eq!(empty.selected, ids(&[" "]));
    assert_eq!(empty.default_selected, " ");
    assert!(empty.summary_rows.is_empty());

    let none = binding_view(&opts, &Vec::new(), "");
    assert!(none.selected.is_empty());
    assert_eq!(none.default_selected, "");
}

#[test]
fn a_default_that_is_not_an_option_is_still_ticked_but_has_no_row() {
    let opts = options(&[("a", "A")]);
    let view = binding_view(&opts, &ids(&["a"]), "zz");
    assert_eq!(view.selected, ids(&["a", "zz"]));
    assert_eq!(view.default_selected, "zz");
    assert_eq!(view.summary_rows, options(&[("a", "A")]));
}

#[test]
fn ticking_a_binding_makes_it_the_default() {
    let (next, default) = toggle_binding(&ids(&["a", "c"]), "a", "b");
    assert_eq!(next, ids(&["a", "b", "c"]));
    assert_eq!(default, "b");
}

#[test]
fn unticking_the_default_passes_it_to_the_last_ticked_one() {
    let (next, default) = toggle_binding(&ids(&["a", "b", "c"]), "b", "b");
    assert_eq!(next, ids(&["a", "c"]));
    assert_eq!(default, "c");

    let (next, default) = toggle_binding(&ids(&["a", "b", "c"]), "a", "c");
    assert_eq!(next, ids(&["a", "b"]));
    assert_eq!(default, "a");
}

#[test]
fn unticking_the_last_binding_clears_the_default() {
    let (next, default) = toggle_binding(&ids(&["a"]), "a", "a");
    assert!(next.is_empty());
    assert_eq!(default, "");
}

#[test]
fn ticking_twice_gives_the_selection_back() {
    let start = ids(&["a", "c"]);
    let (once, d1) = toggle_binding(&start, "c", "b");
    let (twice, d2) = toggle_binding(&once, &d1, "b");
    assert_eq!(twice, start);
    assert_eq!(d2, "c");
    let (once, d1) = toggle_binding(&start, "c", "a");
    let (twice, _) = toggle_binding(&once, &d1, "a");
    assert_eq!(twice, start);
}
