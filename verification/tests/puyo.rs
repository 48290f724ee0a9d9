use puyo_match::puyo::{InvalidPuyoKind, Puyo};

const ALL: [Puyo; 7] = [
    Puyo::B,
    Puyo::G,
    Puyo::P,
    Puyo::R,
    Puyo::Y,
    Puyo::Empty,
    Puyo::Garbage,
];

#[test]
fn puyo_from_str_reads_every_token() {
    assert_eq!(Puyo::from_str("b").unwrap(), Puyo::B);
    assert_eq!(Puyo::from_str("g").unwrap(), Puyo::G);
    assert_eq!(Puyo::from_str("p").unwrap(), Puyo::P);
    assert_eq!(Puyo::from_str("r").unwrap(), Puyo::R);
    assert_eq!(Puyo::from_str("y").unwrap(), Puyo::Y);
    assert_eq!(Puyo::from_str(" ").unwrap(), Puyo::Empty);
    assert_eq!(Puyo::from_str("j").unwrap(), Puyo::Garbage);
}

#[test]
fn puyo_from_str_hands_back_an_unknown_token() {
    let e = Puyo::from_str("x").unwrap_err();
    assert_eq!(e.kind, InvalidPuyoKind::CellToken);
    assert_eq!(e.invalid_puyo, "x");
    assert_eq!(e.message(), "x");
}

#[test]
fn puyo_from_str_takes_one_character_only() {
    let e = Puyo::from_str("bb").unwrap_err();
    assert_eq!(e.kind, InvalidPuyoKind::CellToken);
    assert_eq!(e.invalid_puyo, "bb");
    let e = Puyo::from_str("").unwrap_err();
    assert_eq!(e.kind, InvalidPuyoKind::CellToken);
    assert_eq!(e.invalid_puyo, "");
}

#[test]
fn puyo_from_str_knows_no_upper_case() {
    assert!(Puyo::from_str("B").is_err());
    assert!(Puyo::from_str("R").is_err());
}

#[test]
fn puyo_fact_token_of_empty_is_no_plain_token() {
    assert_eq!(Puyo::Empty.to_text_db_str(), "l");
    assert!(Puyo::from_str("l").is_err());
    assert_ne!(Puyo::Empty.to_text_db_str(), "$");
}

#[test]
fn puyo_to_str_writes_the_plain_alphabet() {
    let written: Vec<String> = ALL.iter().map(|p| p.to_str()).collect();
    assert_eq!(written, vec!["b", "g", "p", "r", "y", " ", "j"]);
    let chars: Vec<char> = ALL.iter().map(|p| p.to_char()).collect();
    assert_eq!(chars, vec!['b', 'g', 'p', 'r', 'y', ' ', 'j']);
}

#[test]
fn puyo_to_text_db_str_writes_the_fact_alphabet() {
    let written: Vec<String> = ALL.iter().map(|p| p.to_text_db_str()).collect();
    assert_eq!(written, vec!["b", "g", "p", "r", "y", "l", "j"]);
    let chars: Vec<char> = ALL.iter().map(|p| p.to_text_db_char()).collect();
    assert_eq!(chars, vec!['b', 'g', 'p', 'r', 'y', 'l', 'j']);
}

#[test]
fn puyo_to_color_str_wraps_the_token_in_colour() {
    assert_eq!(Puyo::B.to_color_str(), "\x1b[46;1mb\x1b[0m");
    assert_eq!(Puyo::G.to_color_str(), "\x1b[42;1mg\x1b[0m");
    assert_eq!(Puyo::P.to_color_str(), "\x1b[45;1mp\x1b[0m");
    assert_eq!(Puyo::R.to_color_str(), "\x1b[41;1mr\x1b[0m");
    assert_eq!(Puyo::Y.to_color_str(), "\x1b[43;1my\x1b[0m");
    assert_eq!(Puyo::Empty.to_color_str(), " ");
    assert_eq!(Puyo::Garbage.to_color_str(), "\x1b[47;1mj\x1b[0m");
}

#[test]
fn puyo_plain_token_reads_back() {
    for p in ALL {
        assert_eq!(Puyo::from_str(&p.to_str()).unwrap(), p);
        assert_eq!(Puyo::from_char(p.to_char()), Some(p));
    }
}

#[test]
fn puyo_fact_token_reads_back_but_for_empty() {
    for p in ALL {
        if p != Puyo::Empty {
            assert_eq!(Puyo::from_str(&p.to_text_db_str()).unwrap(), p);
        }
    }
}

#[test]
fn puyo_fact_token_reads_back_with_l_for_space() {
    for p in ALL {
        let token = p.to_text_db_str().replace("l", " ");
        assert_eq!(Puyo::from_str(&token).unwrap(), p);
    }
}
