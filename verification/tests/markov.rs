use forebodere::markov_model::{MarkovModel, Order, MAX_ORDER, MIN_ORDER};

#[test]
fn order_rejects_out_of_range_values() {
    assert_eq!(Order::new(0), None);
    assert_eq!(Order::new(MAX_ORDER + 1), None);
    assert!(Order::new(MIN_ORDER).is_some());
    assert!(Order::new(MAX_ORDER).is_some());
}

#[test]
fn empty_model_generates_none() {
    let model = MarkovModel::default();
    assert_eq!(model.generate(), None);
}

#[test]
fn feeding_blank_text_leaves_the_model_empty() {
    let mut model = MarkovModel::default();
    model.feed("   ");
    model.feed("");
    assert_eq!(model.generate(), None);
}

#[test]
fn forbidden_characters_are_stripped_before_feeding() {
    let mut model = MarkovModel::default();
    model.feed("(hello) \"world\" ['test']");
    assert_eq!(model.generate(), Some("hello world test".to_string()));
}

#[test]
fn different_orders_can_be_built_from_the_same_corpus() {
    // No repeated words: guarantees one unambiguous path through the
    // chain regardless of order, so generation is deterministic.
    let quote = "quick brown foxes jump over lazy sleeping dogs";
    for raw_order in MIN_ORDER..=MAX_ORDER {
        let order = Order::new(raw_order).unwrap();
        let model = MarkovModel::build(order, &[quote]);
        assert_eq!(model.generate(), Some(quote.to_string()));
    }
}
