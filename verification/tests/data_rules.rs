use backend::data::{is_data_extension, is_impedance_header, lengths_agree};

#[test]
fn data_extensions_in_any_case() {
    assert!(is_data_extension("csv"));
    assert!(is_data_extension("txt"));
    assert!(is_data_extension("CSV"));
    assert!(is_data_extension("TxT"));
    assert!(!is_data_extension("dat"));
    assert!(!is_data_extension("csvx"));
    assert!(!is_data_extension(""));
    assert!(!is_data_extension("tx"));
    assert!(!is_data_extension("çsv"));
}

fn fields(names: &[&str]) -> Vec<String> {
    names.iter().map(|n| String::from(*n)).collect()
}

#[test]
fn header_must_be_frequency_real_imaginary() {
    assert!(is_impedance_header(&fields(&["f", "Z'", "-Z''"])));
    assert!(!is_impedance_header(&fields(&["f", "Z'"])));
    assert!(!is_impedance_header(&fields(&["f", "Z'", "-Z''", "x"])));
    assert!(!is_impedance_header(&fields(&["F", "Z'", "-Z''"])));
    assert!(!is_impedance_header(&fields(&["f", "Z", "-Z''"])));
    assert!(!is_impedance_header(&fields(&["f", "Z'", "Z''"])));
}

#[test]
fn column_lengths_must_agree() {
    assert!(lengths_agree(3, 3, None));
    assert!(lengths_agree(3, 3, Some(3)));
    assert!(!lengths_agree(3, 2, None));
    assert!(!lengths_agree(3, 3, Some(2)));
    assert!(lengths_agree(0, 0, Some(0)));
}
