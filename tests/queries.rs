use sistemedic::command::{classify, Command};
use sistemedic::directory::Directory;
use sistemedic::normalize::normalize;
use sistemedic::query::{HELP, NOT_FOUND, NOT_UNDERSTOOD, START};
use sistemedic::roman::{from_roman, roman};

fn row(code: &str, generation: i8, name: &str, surnames: &str) -> (String, i8, String, String) {
    (code.to_string(), generation, name.to_string(), surnames.to_string())
}

fn sample() -> Directory {
    Directory::from_rows(&[
        row("A101", 32, "Luis", "Soriano Perez"),
        row("A102", 33, "José María", "Núñez Castillo"),
        row("a007", 32, "Karol", "Castillo"),
        row("I050", 0, "Sam", "Pedro Lu"),
    ])
}

#[test]
fn roman_known_values() {
    assert_eq!(roman(0), "N");
    assert_eq!(roman(1), "I");
    assert_eq!(roman(4), "IIII");
    assert_eq!(roman(9), "VIIII");
    assert_eq!(roman(32), "XXXII");
    assert_eq!(roman(33), "XXXIII");
}

#[test]
fn roman_reads_back() {
    for n in 0..40i8 {
        assert_eq!(from_roman(&roman(n)), Some(n));
    }
    assert_eq!(from_roman("IV"), None);
    assert_eq!(from_roman(""), None);
    assert_eq!(from_roman("XXXX"), None);
}

#[test]
fn scenario_single_person() {
    let d = Directory::from_rows(&[row("A101", 32, "Luis", "Soriano Perez")]);
    assert!(d.handle("C A101").contains("A101  Luis Soriano, gen XXXII"));
    assert!(d.handle("N luis").contains("A101  Soriano Perez"));
    assert!(d.handle("G 32").contains("A101  Luis Soriano"));
    assert_eq!(d.handle("G 5"), "No tengo datos sobre quien pertenece a la generación 5 :(\n");
    assert_eq!(d.handle("X"), NOT_UNDERSTOOD);
}

#[test]
fn code_query_in_lower_case() {
    let d = sample();
    assert_eq!(d.handle("C a101"), "A101  Luis Soriano, gen XXXII\n");
    assert_eq!(d.handle("/clave a007 A102"), "A007  Karol Castillo, gen XXXII\nA102  José María Núñez, gen XXXIII\n");
    assert_eq!(d.handle("c i050"), "I050  Sam Pedro, gen N\n");
}

#[test]
fn code_query_unknown_codes() {
    let d = sample();
    assert_eq!(d.handle("C Z999 A10 A1011"), NOT_FOUND);
    assert_eq!(d.handle("C"), NOT_FOUND);
}

#[test]
fn generation_query_lists_cohort() {
    let d = sample();
    assert_eq!(d.handle("G 32"), "A101  Luis Soriano\nA007  Karol Castillo\n");
    assert_eq!(d.handle("gen 33"), "A102  José María Núñez\n");
    assert_eq!(d.handle("G 20"), NOT_FOUND);
}

#[test]
fn generation_query_in_order_of_words() {
    let d = sample();
    assert_eq!(
        d.handle("G 33 0 32"),
        "A102  José María Núñez\nNo tengo datos sobre quien pertenece a la generación 0 :(\nA101  Luis Soriano\nA007  Karol Castillo\n"
    );
    assert_eq!(d.handle("G -3"), "No tengo datos sobre quien pertenece a la generación -3 :(\n");
    assert_eq!(d.handle("G 127"), "No tengo datos sobre quien pertenece a la generación 127 :(\n");
    assert_eq!(d.handle("G +16"), NOT_FOUND);
    assert_eq!(d.handle("G abc - + 3x 1-2"), NOT_FOUND);
}

#[test]
fn generation_numbers_of_any_size() {
    let d = sample();
    assert_eq!(d.handle("G 128"), "No tengo datos sobre quien pertenece a la generación 128 :(\n");
    assert_eq!(
        d.handle("G 123456789012345678901234567890"),
        "No tengo datos sobre quien pertenece a la generación 123456789012345678901234567890 :(\n"
    );
    assert_eq!(
        d.handle("G -99999999999999999999"),
        "No tengo datos sobre quien pertenece a la generación -99999999999999999999 :(\n"
    );
    assert_eq!(d.handle("G -007 -0 000"), "No tengo datos sobre quien pertenece a la generación -7 :(\nNo tengo datos sobre quien pertenece a la generación 0 :(\nNo tengo datos sobre quien pertenece a la generación 0 :(\n");
    assert_eq!(d.handle("G 0033"), "A102  José María Núñez\n");
}

#[test]
fn name_search_ignores_accents() {
    let d = sample();
    let plain = d.handle("N jose");
    assert_eq!(plain, "A102  Núñez Castillo\n");
    assert_eq!(d.handle("N José"), plain);
    assert_eq!(d.handle("n JOSÉ"), plain);
    assert_eq!(d.handle("A nunez"), "A102  José María\n");
    assert_eq!(d.handle("A Núñez"), d.handle("A NUNEZ"));
}

#[test]
fn surname_search_matches_substrings() {
    let d = sample();
    assert_eq!(d.handle("apellido castillo"), "A102  José María\nA007  Karol\n");
    assert_eq!(d.handle("A stil zzz"), "A102  José María\nA007  Karol\n");
}

#[test]
fn short_terms_are_ignored() {
    let d = sample();
    assert_eq!(d.handle("N lu sa a"), NOT_FOUND);
    assert_eq!(d.handle("A lu"), NOT_FOUND);
    assert_eq!(d.handle("N lu luis"), "A101  Soriano Perez\n");
}

#[test]
fn fixed_replies() {
    let d = sample();
    assert_eq!(d.handle(""), NOT_UNDERSTOOD);
    assert_eq!(d.handle("   "), NOT_UNDERSTOOD);
    assert_eq!(d.handle("hola"), NOT_UNDERSTOOD);
    assert_eq!(d.handle("/h"), HELP);
    assert_eq!(d.handle("ayuda"), HELP);
    assert_eq!(d.handle("/start"), START);
    assert_eq!(d.handle("S"), START);
}

#[test]
fn classify_prefixes() {
    assert_eq!(classify("c A101"), Command::ByCode);
    assert_eq!(classify("/CLAVE"), Command::ByCode);
    assert_eq!(classify("Nombre Luis"), Command::ByName);
    assert_eq!(classify("apellido x"), Command::BySurname);
    assert_eq!(classify("Generación 32"), Command::ByGeneration);
    assert_eq!(classify("gen 32"), Command::ByGeneration);
    assert_eq!(classify("HELP"), Command::Help);
    assert_eq!(classify("start"), Command::Start);
    assert_eq!(classify("//c"), Command::Unrecognized);
    assert_eq!(classify(""), Command::Unrecognized);
    assert_eq!(classify("CL"), Command::Unrecognized);
}

#[test]
fn normalize_strips_accents_and_case() {
    assert_eq!(normalize("Ñandú"), "NANDU");
    assert_eq!(normalize("josé maría"), "JOSE MARIA");
    assert_eq!(normalize(""), "");
}

#[test]
fn later_row_replaces_same_code() {
    let d = Directory::from_rows(&[
        row(" a1 ", 20, "Ana", "Uno"),
        row("B2", 21, "Beto", "Dos"),
        row("A1", 22, "Alma", "Tres"),
    ]);
    assert_eq!(d.len(), 2);
    let p = d.find("a1").unwrap();
    assert_eq!(p.given_name, "Alma");
    assert_eq!(p.generation, 22);
    assert!(d.find("C3").is_none());
    assert_eq!(d.handle("G 21 22"), "B2  Beto Dos\nA1  Alma Tres\n");
    assert_eq!(d.handle("G 22 21"), "A1  Alma Tres\nB2  Beto Dos\n");
}

#[test]
fn empty_surnames_and_odd_generations() {
    let d = Directory::from_rows(&[row("Q1", 0, "Ana", ""), row("Q2", -4, "Eva", "  Ruiz  Gil ")]);
    assert_eq!(d.handle("C Q1"), "Q1  Ana , gen N\n");
    assert_eq!(d.handle("C q2"), "Q2  Eva Ruiz, gen \n");
    assert_eq!(d.handle("N eva"), "Q2  Ruiz  Gil\n");
}

#[test]
fn empty_directory() {
    let d = Directory::new();
    assert_eq!(d.len(), 0);
    assert_eq!(d.handle("C A101"), NOT_FOUND);
    assert_eq!(d.handle("N luis"), NOT_FOUND);
    assert_eq!(d.handle("G 32"), NOT_FOUND);
}

#[test]
fn control_characters_are_dropped_by_transliteration() {
    let d = sample();
    assert_eq!(d.handle("C\u{7f} A101"), "A101  Luis Soriano, gen XXXII\n");
    assert_eq!(d.answer("C\u{7f} A101"), NOT_UNDERSTOOD);
    assert_eq!(normalize("é\u{7f}x"), "EX");
}

#[test]
fn answer_takes_transliterated_text() {
    let d = sample();
    assert_eq!(d.answer("n jose"), "A102  Núñez Castillo\n");
    assert_eq!(d.answer("c a101"), d.handle("c a101"));
}
