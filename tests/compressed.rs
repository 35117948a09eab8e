use fhe_strings::compressed::{
    SeededLweBootstrapKey, SeededLweMultiBitBootstrapKey, ShortintCompressedBootstrappingKey,
};
use fhe_strings::seeders::Seed;

#[test]
fn classic_key_sizes() {
    let key = ShortintCompressedBootstrappingKey::Classic(SeededLweBootstrapKey {
        container: vec![7u64; 12],
    });
    assert_eq!(key.bootstrapping_key_size_elements(), 12);
    assert_eq!(key.bootstrapping_key_size_bytes(), 96);
}

#[test]
fn multi_bit_key_sizes() {
    let key = ShortintCompressedBootstrappingKey::MultiBit {
        seeded_bsk: SeededLweMultiBitBootstrapKey { container: vec![1u64, 2, 3] },
        deterministic_execution: true,
    };
    assert_eq!(key.bootstrapping_key_size_elements(), 3);
    assert_eq!(key.bootstrapping_key_size_bytes(), 24);
}

#[test]
fn empty_key_sizes() {
    let key = ShortintCompressedBootstrappingKey::Classic(SeededLweBootstrapKey {
        container: Vec::new(),
    });
    assert_eq!(key.bootstrapping_key_size_elements(), 0);
    assert_eq!(key.bootstrapping_key_size_bytes(), 0);
}

#[test]
fn seeds_compare_by_value() {
    assert_eq!(Seed(42), Seed(42));
    assert_ne!(Seed(42), Seed(43));
}
