use rustfmsynth::filter::FilterType;
use rustfmsynth::operator::{filter_type_eq, Operator};

#[test]
fn new_filter_kinds_go_to_the_end() {
    let mut operator = Operator::new();
    assert_eq!(operator.set_filter(FilterType::Comb), 0);
    assert_eq!(operator.set_filter(FilterType::LowPassBiquad), 1);
    assert_eq!(operator.set_filter(FilterType::PitchedComb), 2);
    assert_eq!(
        operator.filters,
        vec![FilterType::Comb, FilterType::LowPassBiquad, FilterType::PitchedComb]
    );
}

#[test]
fn same_filter_kind_is_replaced_in_place() {
    let mut operator = Operator::new();
    operator.set_filter(FilterType::Comb);
    operator.set_filter(FilterType::LowPassBiquad);
    assert_eq!(operator.set_filter(FilterType::Comb), 0);
    assert_eq!(operator.set_filter(FilterType::LowPassBiquad), 1);
    assert_eq!(operator.filters, vec![FilterType::Comb, FilterType::LowPassBiquad]);
}

#[test]
fn removing_a_filter_keeps_the_order_of_the_others() {
    let mut operator = Operator::new();
    operator.set_filter(FilterType::Comb);
    operator.set_filter(FilterType::LowPassBiquad);
    operator.set_filter(FilterType::PitchedComb);
    assert_eq!(operator.remove_filter(FilterType::LowPassBiquad), Some(1));
    assert_eq!(operator.filters, vec![FilterType::Comb, FilterType::PitchedComb]);
    assert_eq!(operator.remove_filter(FilterType::LowPassBiquad), None);
    assert_eq!(operator.filters, vec![FilterType::Comb, FilterType::PitchedComb]);
}

#[test]
fn installing_and_removing_a_filter_restores_the_chain() {
    let mut operator = Operator::new();
    operator.set_filter(FilterType::PitchedComb);
    let baseline = operator.filters.clone();
    operator.set_filter(FilterType::Comb);
    assert_eq!(operator.remove_filter(FilterType::Comb), Some(1));
    assert_eq!(operator.filters, baseline);
}

#[test]
fn filter_names_of_the_host() {
    assert_eq!(FilterType::from_name(b"LowPass"), Some(FilterType::LowPassBiquad));
    assert_eq!(FilterType::from_name(b"Comb"), Some(FilterType::Comb));
    assert_eq!(FilterType::from_name(b"PitchedComb"), Some(FilterType::PitchedComb));
    assert_eq!(FilterType::from_name(b"Pitched"), None);
    assert_eq!(FilterType::from_name(b"comb"), None);
    assert_eq!(FilterType::from_name(b""), None);
    assert_eq!(FilterType::from_name(b"LowPassBiquad"), None);
}

#[test]
fn filter_kinds_compare_by_kind() {
    assert!(filter_type_eq(FilterType::Comb, FilterType::Comb));
    assert!(!filter_type_eq(FilterType::Comb, FilterType::PitchedComb));
    assert!(!filter_type_eq(FilterType::LowPassBiquad, FilterType::Comb));
}
