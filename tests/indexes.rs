use megastore::code_index::ExactCodeIndex;
use megastore::name_index::OrderedNameIndex;
use megastore::projections::SortedProjections;
use megastore::sort::sort_positions;
use megastore::store::{Produto, RecordStore};
use megastore::text::{folded, has_infix, has_prefix, key_less};
use megastore::word_index::construir_indice_invertido;

fn store_of(rows: &[(&str, &str)]) -> RecordStore {
    RecordStore::new(rows.iter().map(|(c, n)| Produto::new(c, n)).collect())
}

fn chars(s: &str) -> Vec<char> {
    s.chars().collect()
}

#[test]
fn exact_word_query_lists_every_occurrence_in_load_order() {
    let store = store_of(&[("1", "Porca Porca"), ("2", "Parafuso"), ("3", "porca sextavada")]);
    let ix = construir_indice_invertido(&store);
    assert_eq!(ix.exact_word_query("PORCA"), vec![0, 0, 2]);
    assert_eq!(ix.exact_word_query("parafuso"), vec![1]);
    assert!(ix.exact_word_query("por").is_empty());
}

#[test]
fn prefix_word_query_unions_postings_once_per_record() {
    let store = store_of(&[("1", "Porca Porca"), ("2", "Parafuso"), ("3", "porca sextavada")]);
    let ix = construir_indice_invertido(&store);
    assert_eq!(ix.prefix_word_query("p"), vec![1, 0, 2]);
    assert_eq!(ix.prefix_word_query("sex"), vec![2]);
}

#[test]
fn name_index_range_query_gives_positions_in_name_order() {
    let store = store_of(&[("1", "Serra"), ("2", "Serrote"), ("3", "Sargento"), ("4", "serra")]);
    let ix = OrderedNameIndex::build(&store);
    assert_eq!(ix.range_query("SER"), vec![3, 1]);
    assert_eq!(ix.range_query("s"), vec![2, 3, 1]);
}

#[test]
fn code_index_lookup_positions() {
    let store = store_of(&[("0002", "B"), ("0001", "A"), ("0002", "C")]);
    let ix = ExactCodeIndex::build(&store);
    assert_eq!(ix.lookup("0001"), Some(1));
    assert_eq!(ix.lookup("0002"), Some(2));
    assert_eq!(ix.lookup("0003"), None);
}

#[test]
fn projections_first_letter_positions() {
    let store = store_of(&[("1", "Zinco"), ("2", "zarcão"), ("3", "Arame")]);
    let p = SortedProjections::build(&store);
    assert_eq!(p.sorted_by_name(), &vec![2, 1, 0]);
    assert_eq!(p.first_letter_filter("Z").ok(), Some(vec![1, 0]));
}

#[test]
fn sort_positions_is_stable() {
    let keys = vec![chars("b"), chars("a"), chars("b"), chars(""), chars("a")];
    assert_eq!(sort_positions(&keys), vec![3, 1, 4, 0, 2]);
    assert!(sort_positions(&Vec::new()).is_empty());
}

#[test]
fn key_order_is_by_code_point() {
    assert!(key_less(&chars("abc"), &chars("abd")));
    assert!(key_less(&chars("ab"), &chars("abc")));
    assert!(!key_less(&chars("abc"), &chars("abc")));
    assert!(key_less(&chars("z~"), &chars("zç")));
    assert!(key_less(&chars("Z"), &chars("a")));
}

#[test]
fn prefix_and_infix() {
    assert!(has_prefix(&chars("martelo"), &chars("mar")));
    assert!(!has_prefix(&chars("mar"), &chars("martelo")));
    assert!(has_infix(&chars("chave de fenda"), &chars("de f")));
    assert!(has_infix(&chars("x"), &chars("")));
    assert!(!has_infix(&chars("chave"), &chars("chaves")));
}

#[test]
fn folding_lowercases_unicode() {
    assert_eq!(folded("ÁGUA Sanitária"), chars("água sanitária"));
    assert!(folded("").is_empty());
}

#[test]
fn store_accessors() {
    let store = store_of(&[("0001", "Martelo")]);
    assert_eq!(store.len(), 1);
    assert!(!store.is_empty());
    assert_eq!(store.get(0).nome, "Martelo");
    assert_eq!(store.get(0).duplicate(), Produto::new("0001", "Martelo"));
}
