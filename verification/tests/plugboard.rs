use enigma::enigma::{Plugboard, PlugboardError};

fn identity() -> [u8; 26] {
    let mut w = [0u8; 26];
    for (i, x) in w.iter_mut().enumerate() {
        *x = i as u8;
    }
    w
}

#[test]
fn empty_list_of_cables_is_the_identity() {
    assert_eq!(*Plugboard::new(&[]).wiring(), identity());
    assert_eq!(Plugboard::decode_plugboard(&[]), identity());
    assert_eq!(Plugboard::check_connections(&[]), Ok(()));
    assert_eq!(Plugboard::identity(), identity());
}

#[test]
fn cables_swap_their_ends() {
    let board = Plugboard::new(&[('A', 'F'), ('T', 'V'), ('K', 'O'), ('B', 'L'), ('R', 'W')]);
    let mut expected = identity();
    for (a, b) in [(0, 5), (19, 21), (10, 14), (1, 11), (17, 22)] {
        expected[a] = b as u8;
        expected[b] = a as u8;
    }
    assert_eq!(*board.wiring(), expected);
    assert_eq!(board.forward(0), 5);
    assert_eq!(board.forward(5), 0);
    assert_eq!(board.forward(2), 2);
    for c in 0..26u8 {
        assert_eq!(board.forward(board.forward(c)), c);
    }
}

#[test]
fn thirteen_cables_plug_every_letter() {
    let pairs: Vec<(char, char)> =
        (0..13u8).map(|i| ((b'A' + i) as char, (b'Z' - i) as char)).collect();
    let board = Plugboard::new(&pairs);
    assert!(board.unplugged().iter().all(|u| !u));
    assert_eq!(board.generate_connections(), pairs);
}

#[test]
fn lower_case_and_other_characters_are_turned_down() {
    assert_eq!(
        Plugboard::check_connections(&[('A', 'b')]),
        Err(PlugboardError::InvalidCharacter(0))
    );
    assert_eq!(
        Plugboard::check_connections(&[('A', 'B'), ('C', 'D'), ('1', 'E')]),
        Err(PlugboardError::InvalidCharacter(2))
    );
    assert_eq!(
        Plugboard::check_connections(&[('A', 'B'), ('É', 'D')]),
        Err(PlugboardError::InvalidCharacter(1))
    );
    assert_eq!(
        Plugboard::check_connections(&[('[', '@')]),
        Err(PlugboardError::InvalidCharacter(0))
    );
}

#[test]
fn a_letter_in_two_cables_is_turned_down() {
    assert_eq!(
        Plugboard::check_connections(&[('A', 'B'), ('C', 'A')]),
        Err(PlugboardError::DuplicatePlug(1))
    );
    assert_eq!(
        Plugboard::check_connections(&[('A', 'B'), ('C', 'D'), ('E', 'D'), ('A', 'x')]),
        Err(PlugboardError::DuplicatePlug(2))
    );
    assert_eq!(
        Plugboard::check_connections(&[('A', 'B'), ('A', 'B')]),
        Err(PlugboardError::DuplicatePlug(1))
    );
}

#[test]
fn the_first_fault_is_the_one_reported() {
    // the bad character comes before the repeated letter
    assert_eq!(
        Plugboard::check_connections(&[('A', 'B'), ('c', 'D'), ('A', 'E')]),
        Err(PlugboardError::InvalidCharacter(1))
    );
    // within one cable the characters are looked at first
    assert_eq!(
        Plugboard::check_connections(&[('A', 'B'), ('A', 'b')]),
        Err(PlugboardError::InvalidCharacter(1))
    );
}

#[test]
fn a_cable_from_a_letter_to_itself_changes_nothing_but_uses_the_letter() {
    assert_eq!(Plugboard::check_connections(&[('A', 'A')]), Ok(()));
    assert_eq!(Plugboard::decode_plugboard(&[('A', 'A')]), identity());
    assert_eq!(
        Plugboard::check_connections(&[('A', 'A'), ('A', 'B')]),
        Err(PlugboardError::DuplicatePlug(1))
    );
}

#[test]
fn valid_lists_of_cables_pass_the_check_and_decode_to_their_table() {
    let pairs = [('A', 'F'), ('T', 'V'), ('K', 'O'), ('B', 'L'), ('R', 'W')];
    assert_eq!(Plugboard::check_connections(&pairs), Ok(()));
    let table = Plugboard::decode_plugboard(&pairs);
    assert_eq!(table, *Plugboard::new(&pairs).wiring());
    assert_eq!(table[0], 5);
    assert_eq!(table[5], 0);
    assert_eq!(table[19], 21);
    assert_eq!(table[2], 2);
}

#[test]
fn unplugged_marks_the_letters_without_a_cable() {
    let board = Plugboard::new(&[('A', 'F'), ('Z', 'B')]);
    let mask = board.unplugged();
    for (i, free) in mask.iter().enumerate() {
        assert_eq!(*free, ![0usize, 5, 25, 1].contains(&i));
    }
    assert!(Plugboard::new(&[]).unplugged().iter().all(|u| *u));
}

#[test]
fn cables_are_read_off_once_each_by_their_lower_end() {
    let board = Plugboard::new(&[('T', 'V'), ('F', 'A'), ('K', 'O'), ('L', 'B'), ('R', 'W')]);
    assert_eq!(
        board.generate_connections(),
        vec![('A', 'F'), ('B', 'L'), ('K', 'O'), ('R', 'W'), ('T', 'V')]
    );
    assert_eq!(Plugboard::new(&[]).generate_connections(), vec![]);
    assert_eq!(Plugboard::new(&[('Q', 'Q')]).generate_connections(), vec![]);
}

#[test]
fn reading_cables_off_and_plugging_them_in_again_gives_the_same_board() {
    let lists: [&[(char, char)]; 4] = [
        &[],
        &[('A', 'F'), ('T', 'V'), ('K', 'O'), ('B', 'L'), ('R', 'W')],
        &[('Z', 'A'), ('Y', 'B'), ('M', 'N')],
        &[('C', 'C'), ('D', 'E')],
    ];
    for pairs in lists {
        let board = Plugboard::new(pairs);
        let again = Plugboard::new(&board.generate_connections());
        assert_eq!(again.wiring(), board.wiring());
    }
}

#[test]
fn plugboard_is_written_as_pairs_with_blanks_between() {
    let board = Plugboard::new(&[('T', 'V'), ('A', 'F'), ('K', 'O'), ('B', 'L'), ('R', 'W')]);
    assert_eq!(board.to_text(), "AF BL KO RW TV");
    assert_eq!(Plugboard::new(&[('X', 'C')]).to_text(), "CX");
    assert_eq!(Plugboard::new(&[]).to_text(), "");
    let mut s = String::from("plugs: ");
    board.write_to(&mut s);
    assert_eq!(s, "plugs: AF BL KO RW TV");
}
