use kzg_blob::domain::{reverse_bit_order, FftError};
use kzg_blob::fr::Fr;
use kzg_blob::msm::{breakdown, num_bits};
use kzg_blob::settings::{
    fft_settings_to_rust, free_trusted_setup, kzg_settings_to_c, kzg_settings_to_rust,
    CKzgSettings, KzgSettings, PrecomputationTableManager, G1, G2,
};
use std::sync::Arc;

fn fr_of_u64(v: u64) -> Fr {
    let mut bytes = [0u8; 32];
    bytes[24..].copy_from_slice(&v.to_be_bytes());
    Fr { bytes }
}

fn sample_c_settings(width: usize) -> CKzgSettings {
    CKzgSettings {
        max_width: width as u64,
        roots_of_unity: (0..width as u64).map(|i| fr_of_u64(100 + i)).collect(),
        g1_values: (0..width).map(|i| G1 { bytes: [i as u8 | 0x80; 48] }).collect(),
        g2_values: (0..3).map(|i| G2 { bytes: [i as u8 | 0x80; 96] }).collect(),
    }
}

#[test]
fn num_bits_counts_significant_bits() {
    assert_eq!(num_bits(0), 0);
    assert_eq!(num_bits(1), 1);
    assert_eq!(num_bits(255), 8);
    assert_eq!(num_bits(256), 9);
}

#[test]
fn breakdown_few_cpus() {
    assert_eq!(breakdown(12, 4), (1, 20, 13));
    assert_eq!(breakdown(18, 8), (1, 16, 16));
}

#[test]
fn breakdown_many_cpus() {
    assert_eq!(breakdown(12, 32), (1, 24, 11));
    assert_eq!(breakdown(16, 64), (3, 20, 13));
}

#[test]
fn reverse_bit_order_of_eight() {
    let mut v: Vec<u32> = (0..8).collect();
    assert_eq!(reverse_bit_order(&mut v), Ok(()));
    assert_eq!(v, vec![0, 4, 2, 6, 1, 5, 3, 7]);
}

#[test]
fn reverse_bit_order_twice_restores() {
    let start: Vec<u32> = (0..16).map(|i| i * 3 + 1).collect();
    let mut v = start.clone();
    reverse_bit_order(&mut v).unwrap();
    assert_ne!(v, start);
    reverse_bit_order(&mut v).unwrap();
    assert_eq!(v, start);
}

#[test]
fn reverse_bit_order_rejects_bad_lengths() {
    let mut empty: Vec<u8> = Vec::new();
    assert_eq!(reverse_bit_order(&mut empty), Err(FftError::Empty));
    let mut six: Vec<u8> = vec![1, 2, 3, 4, 5, 6];
    assert_eq!(reverse_bit_order(&mut six), Err(FftError::NotPowerOfTwo));
    assert_eq!(six, vec![1, 2, 3, 4, 5, 6]);
    let mut one: Vec<u8> = vec![9];
    assert_eq!(reverse_bit_order(&mut one), Ok(()));
    assert_eq!(one, vec![9]);
}

#[test]
fn fft_settings_tables() {
    let c = sample_c_settings(4);
    let fs = fft_settings_to_rust(&c).unwrap();
    let one = Fr::one();
    assert_eq!(fs.max_width, 4);
    assert_eq!(fs.roots_of_unity, c.roots_of_unity);
    assert_eq!(
        fs.expanded_roots_of_unity,
        vec![fr_of_u64(100), fr_of_u64(102), fr_of_u64(101), fr_of_u64(103), one]
    );
    assert_eq!(
        fs.reverse_roots_of_unity,
        vec![one, fr_of_u64(103), fr_of_u64(101), fr_of_u64(102), fr_of_u64(100)]
    );
    assert_eq!(fs.root_of_unity, fr_of_u64(102));
}

#[test]
fn fft_settings_errors() {
    let mut c = sample_c_settings(4);
    c.max_width = 8;
    assert_eq!(fft_settings_to_rust(&c).err(), Some(FftError::WidthMismatch));
    let c = sample_c_settings(6);
    assert_eq!(fft_settings_to_rust(&c).err(), Some(FftError::NotPowerOfTwo));
    let c = sample_c_settings(0);
    assert_eq!(fft_settings_to_rust(&c).err(), Some(FftError::Empty));
}

#[test]
fn kzg_settings_to_rust_check_conversion() {
    let tables: PrecomputationTableManager<u32> = PrecomputationTableManager::new();
    let settings = kzg_settings_to_rust(&sample_c_settings(16), &tables);

    assert!(settings.is_ok());

    let settings = settings.unwrap();

    let converted_settings = kzg_settings_to_rust(&kzg_settings_to_c(&settings), &tables).unwrap();

    assert_eq!(settings.fs.root_of_unity, converted_settings.fs.root_of_unity);
    assert_eq!(settings.fs.roots_of_unity, converted_settings.fs.roots_of_unity);
    assert_eq!(
        settings.fs.expanded_roots_of_unity,
        converted_settings.fs.expanded_roots_of_unity
    );
    assert_eq!(
        settings.fs.reverse_roots_of_unity,
        converted_settings.fs.reverse_roots_of_unity
    );
}

#[test]
fn precomputation_saved_found_and_removed() {
    let mut tables: PrecomputationTableManager<u32> = PrecomputationTableManager::new();
    let c = sample_c_settings(8);
    let mut settings: KzgSettings<u32> = kzg_settings_to_rust(&c, &tables).unwrap();
    assert!(settings.precomputation.is_none());
    settings.precomputation = Some(Arc::new(77));
    tables.save_precomputation(&mut settings, &c);
    assert!(settings.precomputation.is_none());
    assert_eq!(tables.get_precomputation(&c).map(|t| *t), Some(77));

    let other = sample_c_settings(4);
    assert!(tables.get_precomputation(&other).is_none());

    let reread: KzgSettings<u32> = kzg_settings_to_rust(&c, &tables).unwrap();
    assert_eq!(reread.precomputation.map(|t| *t), Some(77));

    tables.remove_precomputation(&c);
    assert!(tables.get_precomputation(&c).is_none());
}

#[test]
fn precomputation_keyed_by_g1_contents() {
    let mut tables: PrecomputationTableManager<u32> = PrecomputationTableManager::new();
    let c = sample_c_settings(8);
    let mut settings: KzgSettings<u32> = kzg_settings_to_rust(&c, &tables).unwrap();
    settings.precomputation = Some(Arc::new(5));
    tables.save_precomputation(&mut settings, &c);
    let same_points = sample_c_settings(8);
    assert_eq!(tables.get_precomputation(&same_points).map(|t| *t), Some(5));
    let mut changed = sample_c_settings(8);
    changed.g1_values[3].bytes[10] ^= 1;
    assert!(tables.get_precomputation(&changed).is_none());
}

#[test]
fn free_trusted_setup_twice_is_safe() {
    let mut tables: PrecomputationTableManager<u32> = PrecomputationTableManager::new();
    let mut c = sample_c_settings(8);
    let mut settings: KzgSettings<u32> = kzg_settings_to_rust(&c, &tables).unwrap();
    settings.precomputation = Some(Arc::new(1));
    tables.save_precomputation(&mut settings, &c);
    let copy = sample_c_settings(8);

    free_trusted_setup(&mut c, &mut tables);
    assert_eq!(c.max_width, 0);
    assert!(c.roots_of_unity.is_empty());
    assert!(c.g1_values.is_empty());
    assert!(c.g2_values.is_empty());
    assert!(tables.get_precomputation(&copy).is_none());

    free_trusted_setup(&mut c, &mut tables);
    assert_eq!(c.max_width, 0);
    assert!(c.g1_values.is_empty());
}
