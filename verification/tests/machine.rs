use enigma::enigma::{Enigma, EnigmaKey, Plugboard, ReflectorId, Rotor, RotorId};

const CIPHER_TEXT: &str = "OZLUDYAKMGMXVFVARPMJIKVWPMBVWMOIDHYPLAYUWGBZFAFAFUQFZQISLEZMYPVBRDDLAGIHIFUJDFADORQOOMIZP\
                           YXDCBPWDSSNUSYZTJEWZPWFBWBMIEQXRFASZLOPPZRJKJSPPSTXKPUWYSKNMZZLHJDXJMMMDFODIHUBVCXMNICNYQ\
                           BNQODFQLOGPZYXRJMTLMRKQAUQJPADHDZPFIKTQBFXAYMVSZPKXIQLOQCVRPKOBZSXIUBAAJBRSNAFDMLLBVSYXIS\
                           FXQZKQJRIQHOSHVYJXIFUZRMXWJVWHCCYHCXYGRKMKBPWRDBXXRGABQBZRJDVHFPJZUSEBHWAEOGEUQFZEEBDCWND\
                           HIAQDMHKPRVYHQGRDYQIOEOLUBGBSNXWPZCHLDZQBWBEWOCQDBAFGUVHNGCIKXEIZGIZHPJFCTMNNNAUXEVWTWACH\
                           OLOLSLTMDRZJZEVKKSSGUUTHVXXODSKTFGRUEIIXVWQYUIPIDBFPGLBYXZTCOQBCAHJYNSGDYLREYBRAKXGKQKWJE\
                           KWGAPTHGOMXJDSQKYHMFGOLXBSKVLGNZOAXGVTGXUIVFTGKPJU";

const PLAIN_TEXT: &str = "IPROPOSETOCONSIDERTHEQUESTIONCANMACHINESTHINKTHISSHOULDBEGINWITHDEFINITIONSOFTHEMEANINGOFTHETERMSMACHINEANDTHINKTHEDEFINITIONSMIGHTBEFRAMEDSOASTOREFLECTSOFARASPOSSIBLETHENORMALUSEOFTHEWORDSBUTTHISATTITUDEISDANGEROUSIFTHEMEANINGOFTHEWORDSMACHINEANDTHINKARETOBEFOUNDBYEXAMININGHOWTHEYARECOMMONLYUSEDITISDIFFICULTTOESCAPETHECONCLUSIONTHATTHEMEANINGANDTHEANSWERTOTHEQUESTIONCANMACHINESTHINKISTOBESOUGHTINASTATISTICALSURVEYSUCHASAGALLUPPOLLBUTTHISISABSURDINSTEADOFATTEMPTINGSUCHADEFINITIONISHALLREPLACETHEQUESTIONBYANOTHERWHICHISCLOSELYRELATEDTOITANDISEXPRESSEDINRELATIVELYUNAMBIGUOUSWORDS";

const ALL_ROTORS: [RotorId; 9] = [
    RotorId::I,
    RotorId::II,
    RotorId::III,
    RotorId::IV,
    RotorId::V,
    RotorId::VI,
    RotorId::VII,
    RotorId::VIII,
    RotorId::Identity,
];

fn sample_key() -> EnigmaKey {
    let plugboard = Plugboard::new(&[('A', 'F'), ('T', 'V'), ('K', 'O'), ('B', 'L'), ('R', 'W')]);
    EnigmaKey::new(
        Rotor::new(RotorId::II, 7, 12),
        Rotor::new(RotorId::V, 4, 2),
        Rotor::new(RotorId::III, 19, 20),
        plugboard,
    )
}

fn run(key: EnigmaKey, reflector: ReflectorId, text: &str) -> String {
    let mut enigma = Enigma::new(key, reflector);
    text.chars().map(|c| enigma.encrypt(c)).collect()
}

#[test]
fn sample_ciphertext_decrypts_to_the_known_plaintext() {
    assert_eq!(run(sample_key(), ReflectorId::B, CIPHER_TEXT), PLAIN_TEXT);
}

#[test]
fn encrypt_into_replaces_what_the_buffer_held() {
    let mut enigma = Enigma::new(sample_key(), ReflectorId::B);
    let mut buf = String::from("LEFTOVER");
    enigma.encrypt_into(CIPHER_TEXT, &mut buf);
    assert_eq!(buf, PLAIN_TEXT);
}

#[test]
fn encrypt_into_carries_the_wheels_on() {
    let mut enigma = Enigma::new(sample_key(), ReflectorId::B);
    let mut first = String::new();
    let mut second = String::new();
    enigma.encrypt_into(&CIPHER_TEXT[..100], &mut first);
    enigma.encrypt_into(&CIPHER_TEXT[100..], &mut second);
    assert_eq!(first + &second, PLAIN_TEXT);
}

#[test]
fn encrypt_into_of_an_empty_text_is_empty() {
    let mut enigma = Enigma::new(sample_key(), ReflectorId::B);
    let mut buf = String::from("X");
    enigma.encrypt_into("", &mut buf);
    assert_eq!(buf, "");
}

#[test]
fn encrypting_twice_from_the_same_start_restores_the_message() {
    for reflector in [ReflectorId::B, ReflectorId::C, ReflectorId::Identity] {
        let cipher = run(sample_key(), reflector, PLAIN_TEXT);
        assert_ne!(cipher, PLAIN_TEXT);
        assert_eq!(run(sample_key(), reflector, &cipher), PLAIN_TEXT);
    }
}

#[test]
fn no_letter_is_encrypted_to_itself() {
    let cipher = run(sample_key(), ReflectorId::B, PLAIN_TEXT);
    for (p, c) in PLAIN_TEXT.chars().zip(cipher.chars()) {
        assert_ne!(p, c);
    }
}

#[test]
fn middle_wheel_steps_twice_in_a_row_at_its_notch() {
    let key = EnigmaKey::new(
        Rotor::new(RotorId::I, 0, 0),
        Rotor::new(RotorId::II, 3, 0),
        Rotor::new(RotorId::III, 20, 0),
        Plugboard::new(&[]),
    );
    assert_eq!(run(key, ReflectorId::B, "AAAAAAAAAA"), "EQIBMGFJBW");
}

#[test]
fn reflector_c_and_two_notch_wheels() {
    let key = EnigmaKey::new(
        Rotor::new(RotorId::VI, 11, 3),
        Rotor::new(RotorId::VII, 24, 4),
        Rotor::new(RotorId::VIII, 12, 5),
        Plugboard::new(&[('A', 'Z')]),
    );
    assert_eq!(
        run(key, ReflectorId::C, "ENIGMAMACHINEDOUBLESTEPTEST"),
        "AWEAXKLHDOXPXNVGNIJRCYRSDKM"
    );
}

#[test]
fn every_reflector_pairs_the_letters_without_fixed_points() {
    for reflector in [ReflectorId::B, ReflectorId::C, ReflectorId::Identity] {
        for x in 0..26u8 {
            let y = reflector.forward(x);
            assert!(y < 26);
            assert_ne!(y, x);
            assert_eq!(reflector.forward(y), x);
        }
    }
}

#[test]
fn reflector_b_sends_a_to_y() {
    assert_eq!(ReflectorId::B.forward(0), 24);
    assert_eq!(ReflectorId::C.forward(0), 5);
    assert_eq!(ReflectorId::Identity.forward(0), 25);
    assert_eq!(ReflectorId::B.wiring()[25], 19);
}

#[test]
fn forward_and_backward_undo_each_other_on_every_wheel() {
    for id in ALL_ROTORS {
        for position in 0..26u8 {
            for ring in 0..26u8 {
                let rotor = Rotor::new(id, position, ring);
                for c in 0..26u8 {
                    let f = rotor.forward(c);
                    assert!(f < 26);
                    assert_eq!(rotor.backward(f), c);
                    assert_eq!(rotor.forward(rotor.backward(c)), c);
                }
            }
        }
    }
}

#[test]
fn wheel_tables_are_inverse_to_each_other() {
    for id in ALL_ROTORS {
        let forward = id.forward_wiring();
        let backward = id.backward_wiring();
        for i in 0..26usize {
            assert_eq!(backward[forward[i] as usize] as usize, i);
        }
    }
    assert_eq!(RotorId::I.forward_wiring()[0], 4);
    assert_eq!(RotorId::I.backward_wiring()[4], 0);
    assert_eq!(RotorId::VIII.forward_wiring()[25], 21);
    assert_eq!(RotorId::Identity.forward_wiring()[7], 7);
}

#[test]
fn encypher_shifts_in_and_out_by_position_minus_ring() {
    let table = RotorId::I.forward_wiring();
    // shift 0: the table itself
    assert_eq!(Rotor::encypher(0, 0, 0, &table), 4);
    // shift 1: entry 1 is K (10), less the shift
    assert_eq!(Rotor::encypher(0, 1, 0, &table), 9);
    // shift -1 = 25: entry 25 is J (9), less 25 is 10 after wrapping
    assert_eq!(Rotor::encypher(0, 0, 1, &table), 10);
    // position and ring cancel
    assert_eq!(Rotor::encypher(0, 13, 13, &table), 4);
    // wrap on the way in: entry 2 is M (12), less 3
    assert_eq!(Rotor::encypher(25, 3, 0, &table), 9);
    // wrap on the way out: entry 20 is A (0), less 20 is 6 after wrapping
    assert_eq!(Rotor::encypher(0, 20, 0, &table), 6);
}

#[test]
fn notches_stand_where_history_put_them() {
    let single = [
        (RotorId::I, 16u8),
        (RotorId::II, 4),
        (RotorId::III, 21),
        (RotorId::IV, 9),
        (RotorId::V, 25),
        (RotorId::Identity, 0),
    ];
    for (id, notch) in single {
        for position in 0..26u8 {
            assert_eq!(id.is_at_notch(position), position == notch);
            assert_eq!(Rotor::new(id, position, 0).is_at_notch(), position == notch);
        }
    }
    for id in [RotorId::VI, RotorId::VII, RotorId::VIII] {
        for position in 0..26u8 {
            assert_eq!(id.is_at_notch(position), position == 12 || position == 25);
        }
    }
}

#[test]
fn turnover_moves_on_by_one_and_wraps() {
    let mut rotor = Rotor::new(RotorId::IV, 24, 5);
    rotor.turnover();
    assert_eq!(rotor.rotor_position(), 25);
    rotor.turnover();
    assert_eq!(rotor.rotor_position(), 0);
    assert_eq!(rotor.ring_setting(), 5);
    assert_eq!(*rotor.id(), RotorId::IV);
}

#[test]
fn rotate_steps_the_right_wheel_and_carries_at_notches() {
    fn after(left: u8, middle: u8, right: u8) -> String {
        // wheels I, II, III; what the first letter becomes tells the positions apart
        let key = EnigmaKey::new(
            Rotor::new(RotorId::I, left, 0),
            Rotor::new(RotorId::II, middle, 0),
            Rotor::new(RotorId::III, right, 0),
            Plugboard::new(&[]),
        );
        let mut enigma = Enigma::new(key, ReflectorId::B);
        enigma.rotate();
        // after the extra step the machine behaves like one started a step later
        (0..3).map(|_| enigma.encrypt('A')).collect()
    }
    // no notch: only the right wheel moved
    assert_eq!(after(0, 0, 0), after_reference(0, 0, 1));
    // right wheel at its notch (21): the middle wheel moved too
    assert_eq!(after(0, 0, 21), after_reference(0, 1, 22));
    // middle wheel at its notch (4): left and middle moved, and the right one
    assert_eq!(after(0, 4, 0), after_reference(1, 5, 1));
    // both at their notches: the middle wheel moves once
    assert_eq!(after(0, 4, 21), after_reference(1, 5, 22));
}

fn after_reference(left: u8, middle: u8, right: u8) -> String {
    let key = EnigmaKey::new(
        Rotor::new(RotorId::I, left, 0),
        Rotor::new(RotorId::II, middle, 0),
        Rotor::new(RotorId::III, right, 0),
        Plugboard::new(&[]),
    );
    let mut enigma = Enigma::new(key, ReflectorId::B);
    (0..3).map(|_| enigma.encrypt('A')).collect()
}

#[test]
fn setters_change_one_value_of_a_wheel() {
    let mut rotor = Rotor::new(RotorId::V, 1, 2);
    rotor.set_rotor_position(25);
    assert_eq!((rotor.rotor_position(), rotor.ring_setting()), (25, 2));
    rotor.set_ring_setting(0);
    assert_eq!((rotor.rotor_position(), rotor.ring_setting()), (25, 0));
    assert_eq!(*rotor.id(), RotorId::V);
}

#[test]
fn key_hands_out_its_parts() {
    let mut key = sample_key();
    assert_eq!(*key.left_rotor().id(), RotorId::II);
    assert_eq!(key.middle_rotor().rotor_position(), 4);
    assert_eq!(key.right_rotor().ring_setting(), 20);
    assert_eq!(key.plugboard().wiring()[0], 5);
    key.left_rotor_mut().set_rotor_position(9);
    key.middle_rotor_mut().set_ring_setting(8);
    *key.right_rotor_mut() = Rotor::new(RotorId::I, 1, 1);
    key.set_plugboard(Plugboard::new(&[('A', 'B')]));
    assert_eq!(key.left_rotor().rotor_position(), 9);
    assert_eq!(key.left_rotor().ring_setting(), 12);
    assert_eq!(key.middle_rotor().ring_setting(), 8);
    assert_eq!(key.middle_rotor().rotor_position(), 4);
    assert_eq!(*key.right_rotor().id(), RotorId::I);
    assert_eq!(key.plugboard().wiring()[0], 1);
}

#[test]
fn key_is_written_with_wheels_and_cables() {
    assert_eq!(
        sample_key().to_text(),
        "Key { Left Rotor: II 7 12, Middle Rotor: V 4 2, Right Rotor: III 19 20, Plugboard: AF BL KO RW TV }"
    );
    let bare = EnigmaKey::new(
        Rotor::new(RotorId::Identity, 0, 25),
        Rotor::new(RotorId::VIII, 10, 9),
        Rotor::new(RotorId::IV, 25, 0),
        Plugboard::new(&[]),
    );
    assert_eq!(
        bare.to_text(),
        "Key { Left Rotor: Identity 0 25, Middle Rotor: VIII 10 9, Right Rotor: IV 25 0, Plugboard:  }"
    );
}

#[test]
fn wheel_names() {
    let names = ["I", "II", "III", "IV", "V", "VI", "VII", "VIII", "Identity"];
    for (id, name) in ALL_ROTORS.iter().zip(names) {
        assert_eq!(id.name(), name);
    }
    let mut s = String::from(">");
    Rotor::new(RotorId::VII, 3, 14).write_to(&mut s);
    assert_eq!(s, ">VII 3 14");
}
