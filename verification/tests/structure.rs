use backend::element_map::ElementMap;
use backend::model::{CircuitError, CircuitModel};
use backend::network::Network;

/// A compact picture of a network: `S[..]` series, `P[..]` parallel.
fn picture(net: &Network<u32>) -> String {
    match net {
        Network::Element(e) => e.to_string(),
        Network::Series(parts) => {
            format!("S[{}]", parts.iter().map(picture).collect::<Vec<_>>().join(","))
        }
        Network::Parallel(parts) => {
            format!("P[{}]", parts.iter().map(picture).collect::<Vec<_>>().join(","))
        }
    }
}

fn supply(entries: &[(&str, Vec<u32>)]) -> ElementMap<u32> {
    let mut elements = ElementMap::new();
    for (key, items) in entries {
        elements.insert(key, items.clone());
    }
    elements
}

fn assembled(circuit: &str, entries: &[(&str, Vec<u32>)]) -> String {
    let mut model = CircuitModel::new(String::from(circuit), supply(entries));
    assert_eq!(model.check(), Ok(()));
    picture(&model.assemble())
}

#[test]
fn nested_groups_alternate_between_parallel_and_series() {
    assert_eq!(assembled("R(RR)", &[("R", vec![1, 2, 3])]), "S[1,P[2,3]]");
    assert_eq!(
        assembled("R(R(RR))", &[("R", vec![1, 2, 3, 4])]),
        "S[1,P[2,S[3,4]]]"
    );
    assert_eq!(
        assembled("R(R(R(RR)))", &[("R", vec![1, 2, 3, 4, 5])]),
        "S[1,P[2,S[3,P[4,5]]]]"
    );
}

#[test]
fn elements_are_taken_in_order_per_name() {
    assert_eq!(
        assembled("R(RC)(RC)", &[("R", vec![1, 2, 4]), ("C", vec![3, 5])]),
        "S[1,P[2,3],P[4,5]]"
    );
}

#[test]
fn multi_letter_names_are_read_whole() {
    assert_eq!(
        assembled(
            "R(CPEC)",
            &[("R", vec![1]), ("CPE", vec![2]), ("C", vec![3])]
        ),
        "S[1,P[2,3]]"
    );
    assert_eq!(
        assembled(
            "R(TLMQZarc)",
            &[("R", vec![1]), ("TLMQ", vec![2]), ("Zarc", vec![3])]
        ),
        "S[1,P[2,3]]"
    );
    assert_eq!(
        assembled("RWo(Ws)", &[("R", vec![1]), ("Wo", vec![2]), ("Ws", vec![3])]),
        "S[1,2,P[3]]"
    );
}

#[test]
fn circuit_without_brackets_is_a_series_connection() {
    assert_eq!(
        assembled("RCLaR", &[("R", vec![1, 4]), ("C", vec![2]), ("La", vec![3])]),
        "S[1,2,3,4]"
    );
}

#[test]
fn empty_groups_and_empty_circuit() {
    assert_eq!(assembled("", &[]), "S[]");
    assert_eq!(assembled("()", &[]), "S[P[]]");
    assert_eq!(assembled("(())", &[]), "S[P[S[]]]");
}

#[test]
fn unclosed_group_is_dropped_but_its_elements_are_taken() {
    let mut model = CircuitModel::new(String::from("R(R(RR)R"), supply(&[("R", vec![1, 2, 3, 4, 5, 6])]));
    assert_eq!(model.check(), Ok(()));
    assert_eq!(picture(&model.assemble()), "S[1]");
    // Five elements were taken; the sixth is next.
    let mut rest = CircuitModel::new(String::from("R"), model_into_supply(model));
    assert_eq!(picture(&rest.assemble()), "S[6]");
}

fn model_into_supply(model: CircuitModel<u32>) -> ElementMap<u32> {
    model.into_elements()
}

#[test]
fn assembling_again_takes_the_next_elements() {
    let mut model = CircuitModel::new(String::from("R(RR)"), supply(&[("R", vec![1, 2, 3, 4, 5, 6])]));
    assert_eq!(picture(&model.assemble()), "S[1,P[2,3]]");
    assert_eq!(model.check(), Ok(()));
    assert_eq!(picture(&model.assemble()), "S[4,P[5,6]]");
    assert_eq!(
        model.check(),
        Err(CircuitError::MissingElement { name: String::from("R"), position: 0 })
    );
}

#[test]
fn stray_close_is_refused() {
    let model = CircuitModel::new(String::from("R)R"), supply(&[("R", vec![1, 2])]));
    assert_eq!(model.check(), Err(CircuitError::UnmatchedClose { position: 1 }));
    let model = CircuitModel::new(String::from("(R))R)"), supply(&[("R", vec![1, 2])]));
    assert_eq!(model.check(), Err(CircuitError::UnmatchedClose { position: 3 }));
    let model = CircuitModel::new(String::from("(CPE)(R)))"), supply(&[("R", vec![1]), ("CPE", vec![2])]));
    assert_eq!(model.check(), Err(CircuitError::UnmatchedClose { position: 8 }));
}

#[test]
fn stray_close_is_reported_before_missing_elements() {
    let model = CircuitModel::new(String::from("X)"), supply(&[]));
    assert_eq!(model.check(), Err(CircuitError::UnmatchedClose { position: 1 }));
}

#[test]
fn missing_name_is_refused() {
    let model = CircuitModel::new(String::from("R(RC)"), supply(&[("R", vec![1, 2])]));
    assert_eq!(
        model.check(),
        Err(CircuitError::MissingElement { name: String::from("C"), position: 3 })
    );
}

#[test]
fn too_few_elements_is_refused_at_the_first_shortfall() {
    let model = CircuitModel::new(
        String::from("CPE(RCPE)R"),
        supply(&[("R", vec![1, 2]), ("CPE", vec![3])]),
    );
    assert_eq!(
        model.check(),
        Err(CircuitError::MissingElement { name: String::from("CPE"), position: 5 })
    );
}

#[test]
fn non_ascii_circuit_is_refused() {
    let model = CircuitModel::new(String::from("Rµ"), supply(&[("R", vec![1])]));
    assert_eq!(model.check(), Err(CircuitError::NotAscii));
}

#[test]
fn insert_replaces_earlier_supply() {
    let mut elements = supply(&[("R", vec![1, 2])]);
    elements.insert("R", vec![7]);
    assert_eq!(elements.remaining(&String::from("R")), 1);
    assert_eq!(elements.remaining(&String::from("C")), 0);
    assert_eq!(assembled_with("R", elements), "S[7]");
}

fn assembled_with(circuit: &str, elements: ElementMap<u32>) -> String {
    let mut model = CircuitModel::new(String::from(circuit), elements);
    picture(&model.assemble())
}

#[test]
fn take_next_takes_from_the_front() {
    let mut elements = supply(&[("Wo", vec![10, 20, 30])]);
    let key = String::from("Wo");
    assert_eq!(elements.take_next(&key), 10);
    assert_eq!(elements.take_next(&key), 20);
    assert_eq!(elements.remaining(&key), 1);
}

#[test]
fn assembling_uses_up_one_element_per_occurrence() {
    let mut model = CircuitModel::new(
        String::from("R(CR)Wo(C"),
        supply(&[("R", vec![1, 2, 3]), ("C", vec![4, 5, 6]), ("Wo", vec![7])]),
    );
    assert_eq!(picture(&model.assemble()), "S[1,P[4,2],7]");
    let rest = model.into_elements();
    assert_eq!(rest.remaining(&String::from("R")), 1);
    assert_eq!(rest.remaining(&String::from("C")), 1);
    assert_eq!(rest.remaining(&String::from("Wo")), 0);
}

#[test]
fn text_after_an_unclosed_bracket_is_ignored() {
    let base = assembled("RC", &[("R", vec![1, 2]), ("C", vec![3, 4])]);
    let extended = assembled("RC(R(C)", &[("R", vec![1, 2]), ("C", vec![3, 4])]);
    assert_eq!(base, "S[1,3]");
    assert_eq!(extended, base);
}

#[test]
fn any_other_character_is_an_element_name() {
    assert_eq!(
        assembled("X(Y1)", &[("X", vec![1]), ("Y", vec![2]), ("1", vec![3])]),
        "S[1,P[2,3]]"
    );
}
