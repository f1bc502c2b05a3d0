use megastore::engine::{ListOrder, NameSearch, QueryEngine, QueryError};
use megastore::store::{load_records, parse_line, Produto, RecordStore};

fn store_of(rows: &[(&str, &str)]) -> RecordStore {
    RecordStore::new(rows.iter().map(|(c, n)| Produto::new(c, n)).collect())
}

fn engine(rows: &[(&str, &str)], strategy: NameSearch) -> QueryEngine {
    QueryEngine::new(store_of(rows), strategy).ok().expect("non-empty store")
}

fn names(ps: &[Produto]) -> Vec<String> {
    ps.iter().map(|p| p.nome.clone()).collect()
}

fn codes(ps: &[Produto]) -> Vec<String> {
    ps.iter().map(|p| p.codigo.clone()).collect()
}

const TWO: [(&str, &str); 2] = [("0001", "Martelo"), ("0002", "Chave de Fenda")];

#[test]
fn scenario_find_by_code() {
    let e = engine(&TWO, NameSearch::OrderedRangePrefix);
    let p = e.find_by_code("0001").expect("found");
    assert_eq!(p.nome, "Martelo");
    assert_eq!(p.codigo, "0001");
}

#[test]
fn scenario_find_by_name_prefix() {
    let e = engine(&TWO, NameSearch::OrderedRangePrefix);
    let r = e.find_by_name("cha").ok().expect("valid term");
    assert_eq!(names(&r), vec!["Chave de Fenda"]);
}

#[test]
fn scenario_list_by_name() {
    let e = engine(&TWO, NameSearch::OrderedRangePrefix);
    assert_eq!(names(&e.list_all(ListOrder::ByName)), vec!["Chave de Fenda", "Martelo"]);
}

#[test]
fn scenario_first_letter() {
    let e = engine(&TWO, NameSearch::OrderedRangePrefix);
    let r = e.filter_by_first_letter("m").ok().expect("one letter");
    assert_eq!(names(&r), vec!["Martelo"]);
}

#[test]
fn scenario_code_not_found() {
    let e = engine(&TWO, NameSearch::OrderedRangePrefix);
    assert!(e.find_by_code("9999").is_none());
    assert!(e.find_by_code("").is_none());
}

#[test]
fn code_lookup_every_record() {
    let rows = [("0003", "Serrote"), ("0001", "Martelo"), ("0002", "Alicate"), ("0010", "Trena")];
    let e = engine(&rows, NameSearch::LinearScan);
    for (c, n) in rows.iter() {
        let p = e.find_by_code(c).expect("present");
        assert_eq!(p.nome, *n);
    }
}

#[test]
fn code_lookup_is_case_and_space_exact() {
    let e = engine(&[("A01", "Prego")], NameSearch::LinearScan);
    assert!(e.find_by_code("a01").is_none());
    assert!(e.find_by_code(" A01").is_none());
    assert!(e.find_by_code("A01").is_some());
}

#[test]
fn duplicate_code_last_loaded_wins() {
    let e = engine(&[("0001", "Velho"), ("0002", "Outro"), ("0001", "Novo")], NameSearch::LinearScan);
    assert_eq!(e.find_by_code("0001").expect("found").nome, "Novo");
}

#[test]
fn list_by_code_sorted_and_stable() {
    let rows = [("0003", "C"), ("0001", "A1"), ("0002", "B"), ("0001", "A2")];
    let e = engine(&rows, NameSearch::LinearScan);
    let r = e.list_all(ListOrder::ByCode);
    assert_eq!(codes(&r), vec!["0001", "0001", "0002", "0003"]);
    assert_eq!(names(&r), vec!["A1", "A2", "B", "C"]);
}

#[test]
fn list_by_code_is_lexicographic() {
    let e = engine(&[("10", "Dez"), ("9", "Nove"), ("100", "Cem")], NameSearch::LinearScan);
    assert_eq!(codes(&e.list_all(ListOrder::ByCode)), vec!["10", "100", "9"]);
}

#[test]
fn list_by_name_ignores_case_and_keeps_load_order_on_ties() {
    let rows = [("1", "banana"), ("2", "Abacate"), ("3", "BANANA"), ("4", "abacaxi")];
    let e = engine(&rows, NameSearch::LinearScan);
    let r = e.list_all(ListOrder::ByName);
    assert_eq!(codes(&r), vec!["2", "4", "1", "3"]);
}

#[test]
fn listing_is_a_permutation() {
    let rows = [("5", "e"), ("3", "c"), ("1", "a"), ("4", "d"), ("2", "b"), ("6", "a")];
    let e = engine(&rows, NameSearch::LinearScan);
    let mut by_name = codes(&e.list_all(ListOrder::ByName));
    let mut by_code = codes(&e.list_all(ListOrder::ByCode));
    assert_eq!(by_name, vec!["1", "6", "2", "3", "4", "5"]);
    by_name.sort();
    by_code.sort();
    assert_eq!(by_name, vec!["1", "2", "3", "4", "5", "6"]);
    assert_eq!(by_code, by_name);
}

#[test]
fn linear_scan_matches_inside_words() {
    let e = engine(&TWO, NameSearch::LinearScan);
    assert_eq!(names(&e.find_by_name("FEN").ok().unwrap()), vec!["Chave de Fenda"]);
    assert_eq!(names(&e.find_by_name("e").ok().unwrap()), vec!["Martelo", "Chave de Fenda"]);
    assert!(e.find_by_name("xyz").ok().unwrap().is_empty());
}

#[test]
fn range_prefix_matches_name_start_only() {
    let rows = [("1", "Martelo"), ("2", "Marreta"), ("3", "Chave de Fenda"), ("4", "Alicate")];
    let e = engine(&rows, NameSearch::OrderedRangePrefix);
    assert_eq!(names(&e.find_by_name("MAR").ok().unwrap()), vec!["Marreta", "Martelo"]);
    assert!(e.find_by_name("fenda").ok().unwrap().is_empty());
    assert_eq!(names(&e.find_by_name("martelo").ok().unwrap()), vec!["Martelo"]);
    assert!(e.find_by_name("martelos").ok().unwrap().is_empty());
}

#[test]
fn range_prefix_handles_characters_above_tilde() {
    let rows = [("1", "Ação"), ("2", "Açúcar"), ("3", "Acabamento")];
    let e = engine(&rows, NameSearch::OrderedRangePrefix);
    assert_eq!(names(&e.find_by_name("aç").ok().unwrap()), vec!["Ação", "Açúcar"]);
}

#[test]
fn range_prefix_same_folded_name_last_wins() {
    let rows = [("1", "Prego"), ("2", "PREGO")];
    let e = engine(&rows, NameSearch::OrderedRangePrefix);
    assert_eq!(codes(&e.find_by_name("pre").ok().unwrap()), vec!["2"]);
}

#[test]
fn word_prefix_matches_whole_words() {
    let rows = [("1", "Chave de Fenda"), ("2", "Chave Inglesa"), ("3", "Fenda Dupla"), ("4", "Martelo")];
    let e = engine(&rows, NameSearch::InvertedWordPrefix);
    assert_eq!(codes(&e.find_by_name("fen").ok().unwrap()), vec!["1", "3"]);
    assert_eq!(codes(&e.find_by_name("CHAVE").ok().unwrap()), vec!["1", "2"]);
    assert!(e.find_by_name("enda").ok().unwrap().is_empty());
}

#[test]
fn word_prefix_deduplicates_records_in_vocabulary_order() {
    let rows = [("1", "Caixa Caixote"), ("2", "Cabo"), ("3", "caixa  caixa")];
    let e = engine(&rows, NameSearch::InvertedWordPrefix);
    // vocabulary: cabo, caixa, caixote
    assert_eq!(codes(&e.find_by_name("ca").ok().unwrap()), vec!["2", "1", "3"]);
}

#[test]
fn empty_term_is_invalid_for_every_strategy() {
    for s in [NameSearch::LinearScan, NameSearch::OrderedRangePrefix, NameSearch::InvertedWordPrefix] {
        let e = engine(&TWO, s);
        assert_eq!(e.find_by_name("").err(), Some(QueryError::InvalidInput));
    }
}

#[test]
fn first_letter_requires_exactly_one_character() {
    let e = engine(&TWO, NameSearch::LinearScan);
    assert_eq!(e.filter_by_first_letter("").err(), Some(QueryError::InvalidInput));
    assert_eq!(e.filter_by_first_letter("ma").err(), Some(QueryError::InvalidInput));
    let r = e.filter_by_first_letter("ç").ok().expect("one character");
    assert!(r.is_empty());
}

#[test]
fn first_letter_folds_case_and_follows_name_order() {
    let rows = [("1", "Martelo"), ("2", "alicate"), ("3", "marreta"), ("4", "Ácido")];
    let e = engine(&rows, NameSearch::LinearScan);
    assert_eq!(codes(&e.filter_by_first_letter("M").ok().unwrap()), vec!["3", "1"]);
    assert_eq!(codes(&e.filter_by_first_letter("á").ok().unwrap()), vec!["4"]);
}

#[test]
fn empty_store_is_refused() {
    let r = QueryEngine::new(RecordStore::new(Vec::new()), NameSearch::LinearScan);
    assert_eq!(r.err(), Some(QueryError::EmptyStore));
}

#[test]
fn repeated_queries_are_identical() {
    let rows = [("1", "Chave de Fenda"), ("2", "Chave Inglesa"), ("3", "Martelo")];
    for s in [NameSearch::LinearScan, NameSearch::OrderedRangePrefix, NameSearch::InvertedWordPrefix] {
        let e = engine(&rows, s);
        let a = e.find_by_name("cha").ok().unwrap();
        let b = e.find_by_name("cha").ok().unwrap();
        assert_eq!(a, b);
        assert_eq!(e.list_all(ListOrder::ByName), e.list_all(ListOrder::ByName));
        assert_eq!(e.find_by_code("3"), e.find_by_code("3"));
        assert_eq!(e.len(), 3);
    }
}

#[test]
fn parse_line_splits_at_first_semicolon_and_trims() {
    let p = parse_line("  0001 ; Martelo; de unha \r").expect("well formed");
    assert_eq!(p.codigo, "0001");
    assert_eq!(p.nome, "Martelo; de unha");
}

#[test]
fn parse_line_rejects_malformed() {
    assert!(parse_line("0001 Martelo").is_none());
    assert!(parse_line(" ;Martelo").is_none());
    assert!(parse_line("0001;   ").is_none());
    assert!(parse_line("").is_none());
}

#[test]
fn load_records_skips_bad_lines() {
    let lines: Vec<String> = vec!["0001;Martelo".into(), "lixo".into(), "0002 ; Chave".into()];
    let r = load_records(&lines);
    assert_eq!(codes(&r), vec!["0001", "0002"]);
    assert_eq!(names(&r), vec!["Martelo", "Chave"]);
}
