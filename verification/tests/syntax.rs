use backend::syntax::{parse_element_at, tokenize, Token, TokenKind};

#[test]
fn longest_known_name_is_taken_first() {
    assert_eq!(parse_element_at("TLMQR", 0), ("TLMQ", 4));
    assert_eq!(parse_element_at("RZarc", 1), ("Zarc", 4));
    assert_eq!(parse_element_at("CPE", 0), ("CPE", 3));
    assert_eq!(parse_element_at("RWo", 1), ("Wo", 2));
    assert_eq!(parse_element_at("Ws", 0), ("Ws", 2));
    assert_eq!(parse_element_at("La", 0), ("La", 2));
    assert_eq!(parse_element_at("Gs(", 0), ("Gs", 2));
}

#[test]
fn other_characters_are_single_letter_names() {
    assert_eq!(parse_element_at("CP", 0), ("C", 1));
    assert_eq!(parse_element_at("TLM", 0), ("T", 1));
    assert_eq!(parse_element_at("Wx", 0), ("W", 1));
    assert_eq!(parse_element_at("GS", 0), ("G", 1));
    assert_eq!(parse_element_at("X", 0), ("X", 1));
    assert_eq!(parse_element_at("RK", 1), ("K", 1));
}

fn element(name: &str, start: usize) -> Token {
    Token { kind: TokenKind::Element(String::from(name)), start }
}

#[test]
fn tokenize_splits_names_and_brackets() {
    assert_eq!(
        tokenize("R(CPEWo)"),
        vec![
            element("R", 0),
            Token { kind: TokenKind::Open, start: 1 },
            element("CPE", 2),
            element("Wo", 5),
            Token { kind: TokenKind::Close, start: 7 },
        ]
    );
    assert_eq!(tokenize(""), vec![]);
}

#[test]
fn tokens_give_back_the_string() {
    let circuit = "R(TLMQ(ZarcLa)Gs)W";
    let text: String = tokenize(circuit)
        .iter()
        .map(|t| match &t.kind {
            TokenKind::Open => String::from("("),
            TokenKind::Close => String::from(")"),
            TokenKind::Element(name) => name.clone(),
        })
        .collect();
    assert_eq!(text, circuit);
}
