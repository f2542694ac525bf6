use embedding_search::error::Error;
use embedding_search::preprocess::{
    dequantize, normalize_rows, reshape_flat_vec, Data, Embedding, QuantizedWeights, Songs,
};
use embedding_search::{process_quantized, EmbeddingStore};

fn affine(v: u8, scale: u32, zero_point: u32) -> u32 {
    ((v as f32) * f32::from_bits(scale) + f32::from_bits(zero_point)).to_bits()
}

fn l2_norm(row: &[u32]) -> u32 {
    row.iter().map(|x| f32::from_bits(*x)).map(|x| x * x).sum::<f32>().sqrt().to_bits()
}

fn divide(x: u32, n: u32) -> u32 {
    (f32::from_bits(x) / f32::from_bits(n)).to_bits()
}

fn weights(quantized: Vec<u8>, shape: Vec<usize>, scale: f32, zero_point: f32) -> QuantizedWeights {
    QuantizedWeights { quantized, shape, scale: scale.to_bits(), zero_point: zero_point.to_bits() }
}

fn floats(bits: &[u32]) -> Vec<f32> {
    bits.iter().map(|b| f32::from_bits(*b)).collect()
}

fn decode(data: &QuantizedWeights) -> Result<Embedding, Error> {
    reshape_flat_vec(data, &affine, &l2_norm, &divide)
}

#[test]
fn decodes_three_by_two_into_unit_rows() {
    let data = weights(vec![1, 0, 0, 1, 1, 1], vec![3, 2], 1.0, 0.0);
    let embedding = decode(&data).unwrap();
    assert_eq!(embedding.n_vectors(), 3);
    assert_eq!(embedding.dim(), 2);
    let half = 1.0f32 / 2.0f32.sqrt();
    assert_eq!(floats(embedding.weights()), vec![1.0, 0.0, 0.0, 1.0, half, half]);
    assert!((half - 0.707).abs() < 1e-3);
}

#[test]
fn decoded_rows_have_unit_norm() {
    let data = weights(vec![3, 4, 10, 200, 7, 7, 255, 1], vec![4, 2], 0.5, -1.25);
    let embedding = decode(&data).unwrap();
    for i in 0..4 {
        let row = floats(embedding.row(i).unwrap());
        let norm = row.iter().map(|x| x * x).sum::<f32>().sqrt();
        assert!((norm - 1.0).abs() < 1e-5);
    }
}

#[test]
fn dequantization_is_affine() {
    let row = dequantize(&[0, 1, 2, 255], 0.5f32.to_bits(), (-1.0f32).to_bits(), &affine);
    assert_eq!(floats(&row), vec![-1.0, -0.5, 0.0, 126.5]);
}

#[test]
fn normalization_divides_by_the_norm() {
    let row = vec![3.0f32.to_bits(), 4.0f32.to_bits()];
    let out = normalize_rows(&row, &l2_norm, &divide);
    assert_eq!(floats(&out), vec![3.0f32 / 5.0, 4.0f32 / 5.0]);
}

#[test]
fn normalization_leaves_a_zero_row_alone() {
    let row = vec![0.0f32.to_bits(), (-0.0f32).to_bits(), 0.0f32.to_bits()];
    let out = normalize_rows(&row, &l2_norm, &divide);
    assert_eq!(out, row);
}

#[test]
fn normalization_leaves_a_row_without_a_norm_alone() {
    let row = vec![f32::NAN.to_bits(), 1.0f32.to_bits()];
    let out = normalize_rows(&row, &l2_norm, &divide);
    assert_eq!(out, row);
}

#[test]
fn zero_row_decodes_to_zeros() {
    // Every code 4 stands for 4 * 0.25 - 1.0 = 0.
    let data = weights(vec![4, 4, 4, 8, 4, 4], vec![2, 3], 0.25, -1.0);
    let embedding = decode(&data).unwrap();
    assert_eq!(floats(embedding.row(0).unwrap()), vec![0.0, 0.0, 0.0]);
    assert_eq!(floats(embedding.row(1).unwrap()), vec![1.0, 0.0, 0.0]);
}

#[test]
fn decoding_twice_gives_the_same_bits() {
    let data = weights(vec![9, 200, 31, 4, 77, 5, 0, 13, 250], vec![3, 3], 0.0123, -1.5);
    let first = decode(&data).unwrap();
    let second = decode(&data).unwrap();
    assert_eq!(first.weights(), second.weights());
    assert_eq!(first.n_vectors(), second.n_vectors());
    assert_eq!(first.dim(), second.dim());
}

#[test]
fn rows_keep_their_order() {
    let data = weights(vec![1, 0, 0, 2, 0, 3], vec![3, 2], 1.0, 0.0);
    let embedding = decode(&data).unwrap();
    assert_eq!(floats(embedding.row(0).unwrap()), vec![1.0, 0.0]);
    assert_eq!(floats(embedding.row(1).unwrap()), vec![0.0, 1.0]);
    assert_eq!(floats(embedding.row(2).unwrap()), vec![0.0, 1.0]);
    assert!(embedding.row(3).is_none());
}

#[test]
fn too_few_codes_are_malformed() {
    let data = weights(vec![1, 2, 3, 4, 5], vec![3, 2], 1.0, 0.0);
    assert_eq!(decode(&data).err(), Some(Error::MalformedInput));
}

#[test]
fn too_many_codes_are_malformed() {
    let data = weights(vec![1, 2, 3, 4, 5, 6, 7], vec![3, 2], 1.0, 0.0);
    assert_eq!(decode(&data).err(), Some(Error::MalformedInput));
}

#[test]
fn a_shape_of_one_entry_is_malformed() {
    let data = weights(vec![1, 2, 3], vec![3], 1.0, 0.0);
    assert_eq!(decode(&data).err(), Some(Error::MalformedInput));
}

#[test]
fn a_shape_of_three_entries_is_malformed() {
    let data = weights(vec![1, 2, 3, 4], vec![2, 2, 1], 1.0, 0.0);
    assert_eq!(decode(&data).err(), Some(Error::MalformedInput));
}

#[test]
fn an_empty_shape_is_malformed() {
    let data = weights(vec![], vec![], 1.0, 0.0);
    assert_eq!(decode(&data).err(), Some(Error::MalformedInput));
}

#[test]
fn a_zero_dimension_is_malformed() {
    let no_rows = weights(vec![], vec![0, 4], 1.0, 0.0);
    assert_eq!(decode(&no_rows).err(), Some(Error::MalformedInput));
    let no_cols = weights(vec![], vec![4, 0], 1.0, 0.0);
    assert_eq!(decode(&no_cols).err(), Some(Error::MalformedInput));
}

#[test]
fn a_shape_beyond_the_address_space_is_malformed() {
    let data = weights(vec![1, 2], vec![usize::MAX, 2], 1.0, 0.0);
    assert_eq!(decode(&data).err(), Some(Error::MalformedInput));
    assert!(data.dimensions().is_none());
}

#[test]
fn dimensions_of_a_well_shaped_matrix() {
    let data = weights(vec![1, 2, 3, 4, 5, 6], vec![2, 3], 1.0, 0.0);
    assert_eq!(data.dimensions(), Some((2, 3)));
}

#[test]
fn embedding_must_fill_its_shape() {
    assert!(Embedding::new(vec![0; 6], 3, 2).is_some());
    assert!(Embedding::new(vec![0; 5], 3, 2).is_none());
    assert!(Embedding::new(vec![], 0, 2).is_none());
    assert!(Embedding::new(vec![], 2, 0).is_none());
    assert!(Embedding::new(vec![0; 2], usize::MAX, 2).is_none());
}

#[test]
fn label_is_the_second_title() {
    let songs = Songs {
        titles: vec!["first".to_string(), "second".to_string(), "third".to_string()],
        artists: vec!["someone".to_string()],
    };
    assert_eq!(songs.label(), Some(&"second".to_string()));
    let short = Songs { titles: vec!["only".to_string()], artists: vec![] };
    assert_eq!(short.label(), None);
}

#[test]
fn load_stores_the_decoded_matrix() {
    let mut store = EmbeddingStore::new();
    assert!(store.get().is_none());
    let data = Data {
        weights: weights(vec![1, 0, 0, 1], vec![2, 2], 1.0, 0.0),
        songs: Songs { titles: vec![], artists: vec![] },
    };
    assert_eq!(process_quantized(&mut store, &data, &affine, &l2_norm, &divide), Ok(()));
    let held = store.get().unwrap();
    assert_eq!(floats(held.weights()), vec![1.0, 0.0, 0.0, 1.0]);
}

#[test]
fn a_malformed_load_leaves_the_store_as_it_was() {
    let mut store = EmbeddingStore::new();
    let good = Data {
        weights: weights(vec![2, 0, 0, 2], vec![2, 2], 1.0, 0.0),
        songs: Songs { titles: vec![], artists: vec![] },
    };
    let bad = Data {
        weights: weights(vec![1, 2, 3], vec![2, 2], 1.0, 0.0),
        songs: Songs { titles: vec![], artists: vec![] },
    };
    assert_eq!(
        process_quantized(&mut store, &bad, &affine, &l2_norm, &divide),
        Err(Error::MalformedInput)
    );
    assert!(store.get().is_none());
    assert_eq!(process_quantized(&mut store, &good, &affine, &l2_norm, &divide), Ok(()));
    assert_eq!(
        process_quantized(&mut store, &bad, &affine, &l2_norm, &divide),
        Err(Error::MalformedInput)
    );
    assert_eq!(floats(store.get().unwrap().weights()), vec![1.0, 0.0, 0.0, 1.0]);
}

#[test]
fn a_later_load_replaces_the_earlier_one() {
    let mut store = EmbeddingStore::new();
    let first = Data {
        weights: weights(vec![1, 0, 0, 1], vec![2, 2], 1.0, 0.0),
        songs: Songs { titles: vec![], artists: vec![] },
    };
    let second = Data {
        weights: weights(vec![0, 5, 5, 0, 0, 5], vec![3, 2], 1.0, 0.0),
        songs: Songs { titles: vec![], artists: vec![] },
    };
    assert_eq!(process_quantized(&mut store, &first, &affine, &l2_norm, &divide), Ok(()));
    assert_eq!(process_quantized(&mut store, &second, &affine, &l2_norm, &divide), Ok(()));
    let held = store.get().unwrap();
    assert_eq!(held.n_vectors(), 3);
    assert_eq!(floats(held.weights()), vec![0.0, 1.0, 1.0, 0.0, 0.0, 1.0]);
}

#[test]
fn error_messages() {
    assert_eq!(Error::NotInitialized.message(), "Normalized matrix not initialized");
    assert_eq!(Error::MalformedInput.message(), "Quantized matrix is malformed");
    assert_eq!(Error::IndexOutOfRange.message(), "Query index out of range");
}
