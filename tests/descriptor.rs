use rascaline::{Descriptor, IndexValue, Indexes, IndexesBuilder};

fn v(i: i32) -> IndexValue {
    IndexValue::from(i)
}

fn dummy_features() -> Indexes {
    let mut features = IndexesBuilder::new(vec!["foo", "bar"]);
    features.add(&[v(0), v(-1)]);
    features.add(&[v(4), v(-2)]);
    features.add(&[v(1), v(-5)]);
    features.finish()
}

/// One sample per species in each structure of a water molecule and a CH
/// molecule; the species of oxygen is 123456.
fn structure_species_samples() -> (Indexes, Indexes) {
    let mut samples = IndexesBuilder::new(vec!["structure", "species"]);
    for row in [[0, 1], [0, 123456], [1, 1], [1, 6]] {
        samples.add(&row);
    }
    let mut gradients = IndexesBuilder::new(vec!["structure", "species", "atom", "spatial"]);
    for row in [[0, 1, 1], [0, 1, 2], [0, 123456, 0], [1, 1, 0], [1, 6, 1]] {
        for spatial in 0..3 {
            gradients.add(&[row[0], row[1], row[2], spatial]);
        }
    }
    (samples.finish(), gradients.finish())
}

/// One sample per pair of species around each center of a water molecule.
fn two_bodies_species_samples() -> (Indexes, Indexes) {
    let names = vec!["structure", "center", "species_center", "species_neighbor"];
    let mut samples = IndexesBuilder::new(names);
    for row in [
        [0, 0, 123456, 1],
        [0, 1, 1, 1],
        [0, 1, 1, 123456],
        [0, 2, 1, 1],
        [0, 2, 1, 123456],
    ] {
        samples.add(&row);
    }
    let names = vec!["structure", "center", "species_center", "species_neighbor", "neighbor", "spatial"];
    let mut gradients = IndexesBuilder::new(names);
    for row in [
        [0, 0, 123456, 1, 0],
        [0, 0, 123456, 1, 1],
        [0, 0, 123456, 1, 2],
        [0, 1, 1, 1, 1],
        [0, 1, 1, 1, 2],
        [0, 1, 1, 123456, 1],
        [0, 1, 1, 123456, 0],
        [0, 2, 1, 1, 2],
        [0, 2, 1, 1, 1],
        [0, 2, 1, 123456, 2],
        [0, 2, 1, 123456, 0],
    ] {
        for spatial in 0..3 {
            gradients.add(&[row[0], row[1], row[2], row[3], row[4], spatial]);
        }
    }
    (samples.finish(), gradients.finish())
}

fn matrix(rows: &[&[f64]]) -> Vec<Vec<f64>> {
    rows.iter().map(|r| r.to_vec()).collect()
}

fn structure_species_values() -> Vec<Vec<f64>> {
    matrix(&[
        &[1.0, 2.0, 3.0],
        &[4.0, 5.0, 6.0],
        &[7.0, 8.0, 9.0],
        &[10.0, 11.0, 12.0],
    ])
}

fn structure_species_gradients() -> Vec<Vec<f64>> {
    matrix(&[
        &[1.0, 2.0, 3.0], &[0.1, 0.2, 0.3], &[-1.0, -2.0, -3.0],
        &[4.0, 5.0, 6.0], &[0.4, 0.5, 0.6], &[-4.0, -5.0, -6.0],
        &[7.0, 8.0, 9.0], &[0.7, 0.8, 0.9], &[-7.0, -8.0, -9.0],
        &[10.0, 11.0, 12.0], &[0.10, 0.11, 0.12], &[-10.0, -11.0, -12.0],
        &[13.0, 14.0, 15.0], &[0.13, 0.14, 0.15], &[-13.0, -14.0, -15.0],
    ])
}

fn two_bodies_values() -> Vec<Vec<f64>> {
    matrix(&[
        // H channel around O
        &[1.0, 2.0, 3.0],
        // H channel around H1
        &[4.0, 5.0, 6.0],
        // O channel around H1
        &[7.0, 8.0, 9.0],
        // H channel around H2
        &[10.0, 11.0, 12.0],
        // O channel around H2
        &[13.0, 14.0, 15.0],
    ])
}

fn two_bodies_gradients() -> Vec<Vec<f64>> {
    matrix(&[
            // H channel around O, derivatives w.r.t. O
            &[1.0, 0.1, -1.0], &[2.0, 0.2, -2.0], &[3.0, 0.3, -3.0],
            // H channel around O, derivatives w.r.t. H1
            &[4.0, 0.4, -4.0], &[5.0, 0.5, -5.0], &[6.0, 0.6, -6.0],
            // H channel around O, derivatives w.r.t. H2
            &[7.0, 0.7, -7.0], &[8.0, 0.8, -8.0], &[9.0, 0.9, -9.0],
            // H channel around H1, derivatives w.r.t. H1
            &[10.0, 0.10, -10.0], &[11.0, 0.11, -11.0], &[12.0, 0.12, -12.0],
            // H channel around H1, derivatives w.r.t. H2
            &[13.0, 0.13, -13.0], &[14.0, 0.14, -14.0], &[15.0, 0.15, -15.0],
            // O channel around H1, derivatives w.r.t. H1
            &[16.0, 0.16, -16.0], &[17.0, 0.17, -17.0], &[18.0, 0.18, -18.0],
            // O channel around H1, derivatives w.r.t. O
            &[19.0, 0.19, -19.0], &[20.0, 0.20, -20.0], &[21.0, 0.21, -21.0],
            // H channel around H2, derivatives w.r.t. H2
            &[22.0, 0.22, -22.0], &[23.0, 0.23, -23.0], &[24.0, 0.24, -24.0],
            // H channel around H2, derivatives w.r.t. H1
            &[25.0, 0.25, -25.0], &[26.0, 0.26, -26.0], &[27.0, 0.27, -27.0],
            // O channel around H2, derivatives w.r.t. H2
            &[28.0, 0.28, -28.0], &[29.0, 0.29, -29.0], &[30.0, 0.30, -30.0],
            // O channel around H2, derivatives w.r.t. O
            &[31.0, 0.31, -31.0], &[32.0, 0.32, -32.0], &[33.0, 0.33, -33.0],
        ])
}

#[test]
fn prepare() {
    let mut descriptor = Descriptor::<f64>::new();

    let features = dummy_features();
    let (samples, _) = structure_species_samples();
    descriptor.prepare(samples, features, 0.0);

    assert_eq!(descriptor.values.len(), 4);
    assert!(descriptor.values.iter().all(|row| row.len() == 3));

    assert_eq!(descriptor.samples.names(), ["structure", "species"]);
    assert_eq!(descriptor.samples.value(0), [v(0), v(1)]);
    assert_eq!(descriptor.samples.value(1), [v(0), v(123456)]);
    assert_eq!(descriptor.samples.value(2), [v(1), v(1)]);
    assert_eq!(descriptor.samples.value(3), [v(1), v(6)]);

    assert!(descriptor.gradients.is_none());
}

#[test]
fn prepare_gradients() {
    let mut descriptor = Descriptor::<f64>::new();

    let features = dummy_features();
    let (samples, gradients) = structure_species_samples();
    descriptor.prepare_gradients(samples, gradients, features, 0.0);

    let gradients = descriptor.gradients.unwrap();
    assert_eq!(gradients.len(), 15);
    assert!(gradients.iter().all(|row| row.len() == 3));

    let gradients_samples = descriptor.gradients_samples.as_ref().unwrap();
    assert_eq!(gradients_samples.names(), ["structure", "species", "atom", "spatial"]);

    let expected = [
        [v(0), v(1), v(1)],
        [v(0), v(1), v(2)],
        [v(0), v(123456), v(0)],
        [v(1), v(1), v(0)],
        [v(1), v(6), v(1)],
    ];
    // use a loop to simplify checking the spatial dimension
    for (i, &value) in expected.iter().enumerate() {
        assert_eq!(gradients_samples.value(3 * i)[..3], value);
        assert_eq!(gradients_samples.value(3 * i)[3], v(0));

        assert_eq!(gradients_samples.value(3 * i + 1)[..3], value);
        assert_eq!(gradients_samples.value(3 * i + 1)[3], v(1));

        assert_eq!(gradients_samples.value(3 * i + 2)[..3], value);
        assert_eq!(gradients_samples.value(3 * i + 2)[3], v(2));
    }
}

#[test]
fn densify_single_variable() {
    let mut descriptor = Descriptor::<f64>::new();

    let features = dummy_features();
    let (samples, gradients) = structure_species_samples();
    descriptor.prepare_gradients(samples, gradients, features, 0.0);

    descriptor.values = structure_species_values();
    descriptor.gradients = Some(structure_species_gradients());

    // where the magic happens
    descriptor.densify(&["species"], None, 0.0).unwrap();

    assert_eq!(descriptor.features.names(), ["species", "foo", "bar"]);
    assert_eq!(descriptor.features.value(0), [v(1), v(0), v(-1)]);
    assert_eq!(descriptor.features.value(1), [v(1), v(4), v(-2)]);
    assert_eq!(descriptor.features.value(2), [v(1), v(1), v(-5)]);
    assert_eq!(descriptor.features.value(3), [v(6), v(0), v(-1)]);
    assert_eq!(descriptor.features.value(4), [v(6), v(4), v(-2)]);
    assert_eq!(descriptor.features.value(5), [v(6), v(1), v(-5)]);
    assert_eq!(descriptor.features.value(6), [v(123456), v(0), v(-1)]);
    assert_eq!(descriptor.features.value(7), [v(123456), v(4), v(-2)]);
    assert_eq!(descriptor.features.value(8), [v(123456), v(1), v(-5)]);

    assert_eq!(descriptor.values.len(), 2);
    assert_eq!(descriptor.values[0].len(), 9);
    assert_eq!(descriptor.samples.names(), ["structure"]);
    assert_eq!(descriptor.samples.value(0), [v(0)]);
    assert_eq!(descriptor.samples.value(1), [v(1)]);

    assert_eq!(descriptor.values, matrix(&[
        &[/* H */ 1.0, 2.0, 3.0, /* C */ 0.0, 0.0, 0.0,    /* O */ 4.0, 5.0, 6.0],
        &[/* H */ 7.0, 8.0, 9.0, /* C */ 10.0, 11.0, 12.0, /* O */ 0.0, 0.0, 0.0],
    ]));

    let gradients = descriptor.gradients.as_ref().unwrap();
    assert_eq!(gradients.len(), 15);
    assert_eq!(gradients[0].len(), 9);
    let gradients_samples = descriptor.gradients_samples.as_ref().unwrap();
    assert_eq!(gradients_samples.names(), ["structure", "atom", "spatial"]);

    let expected = [
        [v(0), v(1)],
        [v(0), v(2)],
        [v(0), v(0)],
        [v(1), v(0)],
        [v(1), v(1)]
    ];
    // use a loop to simplify checking the spatial dimension
    for (i, &value) in expected.iter().enumerate() {
        assert_eq!(gradients_samples.value(3 * i)[..2], value);
        assert_eq!(gradients_samples.value(3 * i)[2], v(0));

        assert_eq!(gradients_samples.value(3 * i + 1)[..2], value);
        assert_eq!(gradients_samples.value(3 * i + 1)[2], v(1));

        assert_eq!(gradients_samples.value(3 * i + 2)[..2], value);
        assert_eq!(gradients_samples.value(3 * i + 2)[2], v(2));
    }

    assert_eq!(*gradients, matrix(&[
        &[/*H*/ 1.0, 2.0, 3.0,       /*C*/ 0.0, 0.0, 0.0,        /*O*/ 0.0, 0.0, 0.0],
        &[/*H*/ 0.1, 0.2, 0.3,       /*C*/ 0.0, 0.0, 0.0,        /*O*/ 0.0, 0.0, 0.0],
        &[/*H*/ -1.0, -2.0, -3.0,    /*C*/ 0.0, 0.0, 0.0,        /*O*/ 0.0, 0.0, 0.0],
        &[/*H*/ 4.0, 5.0, 6.0,       /*C*/ 0.0, 0.0, 0.0,        /*O*/ 0.0, 0.0, 0.0],
        &[/*H*/ 0.4, 0.5, 0.6,       /*C*/ 0.0, 0.0, 0.0,        /*O*/ 0.0, 0.0, 0.0],
        &[/*H*/ -4.0, -5.0, -6.0,    /*C*/ 0.0, 0.0, 0.0,        /*O*/ 0.0, 0.0, 0.0],
        &[/*H*/ 0.0, 0.0, 0.0,       /*C*/ 0.0, 0.0, 0.0,        /*O*/ 7.0, 8.0, 9.0],
        &[/*H*/ 0.0, 0.0, 0.0,       /*C*/ 0.0, 0.0, 0.0,        /*O*/ 0.7, 0.8, 0.9],
        &[/*H*/ 0.0, 0.0, 0.0,       /*C*/ 0.0, 0.0, 0.0,        /*O*/ -7.0, -8.0, -9.0],
        &[/*H*/ 10.0, 11.0, 12.0,    /*C*/ 0.0, 0.0, 0.0,        /*O*/ 0.0, 0.0, 0.0],
        &[/*H*/ 0.1, 0.11, 0.12,     /*C*/ 0.0, 0.0, 0.0,        /*O*/ 0.0, 0.0, 0.0],
        &[/*H*/ -10.0, -11.0, -12.0, /*C*/ 0.0, 0.0, 0.0,        /*O*/ 0.0, 0.0, 0.0],
        &[/*H*/ 0.0, 0.0, 0.0,       /*C*/ 13.0, 14.0, 15.0,     /*O*/ 0.0, 0.0, 0.0],
        &[/*H*/ 0.0, 0.0, 0.0,       /*C*/ 0.13, 0.14, 0.15,     /*O*/ 0.0, 0.0, 0.0],
        &[/*H*/ 0.0, 0.0, 0.0,       /*C*/ -13.0, -14.0, -15.0,  /*O*/ 0.0, 0.0, 0.0],
    ]));
}

#[test]
fn densify_single_variable_user_values() {
    let mut descriptor = Descriptor::<f64>::new();

    let features = dummy_features();
    let (samples, gradients) = structure_species_samples();
    descriptor.prepare_gradients(samples, gradients, features, 0.0);

    descriptor.values = structure_species_values();
    descriptor.gradients = Some(structure_species_gradients());

    let requested = vec![vec![v(6)], vec![v(12)], vec![v(123456)]];
    descriptor.densify(&["species"], Some(&requested), 0.0).unwrap();

    assert_eq!(descriptor.features.names(), ["species", "foo", "bar"]);
    assert_eq!(descriptor.features.value(0), [v(6), v(0), v(-1)]);
    assert_eq!(descriptor.features.value(1), [v(6), v(4), v(-2)]);
    assert_eq!(descriptor.features.value(2), [v(6), v(1), v(-5)]);
    assert_eq!(descriptor.features.value(3), [v(12), v(0), v(-1)]);
    assert_eq!(descriptor.features.value(4), [v(12), v(4), v(-2)]);
    assert_eq!(descriptor.features.value(5), [v(12), v(1), v(-5)]);
    assert_eq!(descriptor.features.value(6), [v(123456), v(0), v(-1)]);
    assert_eq!(descriptor.features.value(7), [v(123456), v(4), v(-2)]);
    assert_eq!(descriptor.features.value(8), [v(123456), v(1), v(-5)]);

    assert_eq!(descriptor.values.len(), 2);
    assert_eq!(descriptor.values[0].len(), 9);
    assert_eq!(descriptor.samples.names(), ["structure"]);
    assert_eq!(descriptor.samples.value(0), [v(0)]);
    assert_eq!(descriptor.samples.value(1), [v(1)]);

    assert_eq!(descriptor.values, matrix(&[
        &[/* C */ 0.0, 0.0, 0.0,    /* missing */ 0.0, 0.0, 0.0, /* O */ 4.0, 5.0, 6.0],
        &[/* C */ 10.0, 11.0, 12.0, /* missing */ 0.0, 0.0, 0.0, /* O */ 0.0, 0.0, 0.0],
    ]));

    let gradients = descriptor.gradients.as_ref().unwrap();
    assert_eq!(*gradients, matrix(&[
        &[/*C*/ 0.0, 0.0, 0.0,        /*missing*/ 0.0, 0.0, 0.0, /*O*/ 0.0, 0.0, 0.0],
        &[/*C*/ 0.0, 0.0, 0.0,        /*missing*/ 0.0, 0.0, 0.0, /*O*/ 0.0, 0.0, 0.0],
        &[/*C*/ 0.0, 0.0, 0.0,        /*missing*/ 0.0, 0.0, 0.0, /*O*/ 0.0, 0.0, 0.0],
        &[/*C*/ 0.0, 0.0, 0.0,        /*missing*/ 0.0, 0.0, 0.0, /*O*/ 0.0, 0.0, 0.0],
        &[/*C*/ 0.0, 0.0, 0.0,        /*missing*/ 0.0, 0.0, 0.0, /*O*/ 0.0, 0.0, 0.0],
        &[/*C*/ 0.0, 0.0, 0.0,        /*missing*/ 0.0, 0.0, 0.0, /*O*/ 0.0, 0.0, 0.0],
        &[/*C*/ 0.0, 0.0, 0.0,        /*missing*/ 0.0, 0.0, 0.0, /*O*/ 7.0, 8.0, 9.0],
        &[/*C*/ 0.0, 0.0, 0.0,        /*missing*/ 0.0, 0.0, 0.0, /*O*/ 0.7, 0.8, 0.9],
        &[/*C*/ 0.0, 0.0, 0.0,        /*missing*/ 0.0, 0.0, 0.0, /*O*/ -7.0, -8.0, -9.0],
        &[/*C*/ 0.0, 0.0, 0.0,        /*missing*/ 0.0, 0.0, 0.0, /*O*/ 0.0, 0.0, 0.0],
        &[/*C*/ 0.0, 0.0, 0.0,        /*missing*/ 0.0, 0.0, 0.0, /*O*/ 0.0, 0.0, 0.0],
        &[/*C*/ 0.0, 0.0, 0.0,        /*missing*/ 0.0, 0.0, 0.0, /*O*/ 0.0, 0.0, 0.0],
        &[/*C*/ 13.0, 14.0, 15.0,     /*missing*/ 0.0, 0.0, 0.0, /*O*/ 0.0, 0.0, 0.0],
        &[/*C*/ 0.13, 0.14, 0.15,     /*missing*/ 0.0, 0.0, 0.0, /*O*/ 0.0, 0.0, 0.0],
        &[/*C*/ -13.0, -14.0, -15.0,  /*missing*/ 0.0, 0.0, 0.0, /*O*/ 0.0, 0.0, 0.0],
    ]));
}

#[test]
fn densify_multiple_variables() {
    let mut descriptor = Descriptor::<f64>::new();

    let features = dummy_features();
    let (samples, gradients) = two_bodies_species_samples();
    descriptor.prepare_gradients(samples, gradients, features, 0.0);

    descriptor.values = two_bodies_values();
    descriptor.gradients = Some(two_bodies_gradients());

    descriptor.densify(&["species_center", "species_neighbor"], None, 0.0).unwrap();

    assert_eq!((descriptor.values.len(), descriptor.values[0].len()), (3, 9));
    assert_eq!(descriptor.samples.names(), ["structure", "center"]);
    assert_eq!(descriptor.samples.value(0), [v(0), v(0)]);
    assert_eq!(descriptor.samples.value(1), [v(0), v(1)]);
    assert_eq!(descriptor.samples.value(2), [v(0), v(2)]);

    assert_eq!(descriptor.features.names(), ["species_center", "species_neighbor", "foo", "bar"]);
    assert_eq!(descriptor.features.value(0), [v(1), v(1), v(0), v(-1)]);
    assert_eq!(descriptor.features.value(1), [v(1), v(1), v(4), v(-2)]);
    assert_eq!(descriptor.features.value(2), [v(1), v(1), v(1), v(-5)]);
    assert_eq!(descriptor.features.value(3), [v(1), v(123456), v(0), v(-1)]);
    assert_eq!(descriptor.features.value(4), [v(1), v(123456), v(4), v(-2)]);
    assert_eq!(descriptor.features.value(5), [v(1), v(123456), v(1), v(-5)]);
    assert_eq!(descriptor.features.value(6), [v(123456), v(1), v(0), v(-1)]);
    assert_eq!(descriptor.features.value(7), [v(123456), v(1), v(4), v(-2)]);
    assert_eq!(descriptor.features.value(8), [v(123456), v(1), v(1), v(-5)]);

    assert_eq!(descriptor.values, matrix(&[
        /*    H-H                    H-O                  O-H      */
        // O in water
        &[0.0, 0.0, 0.0,    /**/ 0.0, 0.0, 0.0,    /**/ 1.0, 2.0, 3.0],
        // H1 in water
        &[4.0, 5.0, 6.0,    /**/ 7.0, 8.0, 9.0,    /**/ 0.0, 0.0, 0.0],
        // H2 in water
        &[10.0, 11.0, 12.0, /**/ 13.0, 14.0, 15.0, /**/ 0.0, 0.0, 0.0]
    ]));

    let gradients = descriptor.gradients.as_ref().unwrap();
    assert_eq!((gradients.len(), gradients[0].len()), (27, 9));
    let gradients_samples = descriptor.gradients_samples.as_ref().unwrap();
    assert_eq!(gradients_samples.names(), ["structure", "center", "neighbor", "spatial"]);

    let expected = [
        [v(0), v(0), v(0)],
        [v(0), v(0), v(1)],
        [v(0), v(0), v(2)],
        [v(0), v(1), v(1)],
        [v(0), v(1), v(2)],
        [v(0), v(1), v(0)],
        [v(0), v(2), v(2)],
        [v(0), v(2), v(1)],
        [v(0), v(2), v(0)],
    ];
    // use a loop to simplify checking the spatial dimension
    for (i, &value) in expected.iter().enumerate() {
        assert_eq!(gradients_samples.value(3 * i)[..3], value);
        assert_eq!(gradients_samples.value(3 * i)[3], v(0));

        assert_eq!(gradients_samples.value(3 * i + 1)[..3], value);
        assert_eq!(gradients_samples.value(3 * i + 1)[3], v(1));

        assert_eq!(gradients_samples.value(3 * i + 2)[..3], value);
        assert_eq!(gradients_samples.value(3 * i + 2)[3], v(2));
    }

    assert_eq!(*gradients, matrix(&[
        /*    H-H                  H-O                  O-H       */
        // O in water, derivatives w.r.t. O
        &[0.0, 0.0, 0.0,        0.0, 0.0, 0.0,       1.0, 0.1, -1.0],
        &[0.0, 0.0, 0.0,        0.0, 0.0, 0.0,       2.0, 0.2, -2.0],
        &[0.0, 0.0, 0.0,        0.0, 0.0, 0.0,       3.0, 0.3, -3.0],
        // O in water, derivatives w.r.t. H1
        &[0.0, 0.0, 0.0,        0.0, 0.0, 0.0,       4.0, 0.4, -4.0],
        &[0.0, 0.0, 0.0,        0.0, 0.0, 0.0,       5.0, 0.5, -5.0],
        &[0.0, 0.0, 0.0,        0.0, 0.0, 0.0,       6.0, 0.6, -6.0],
        // O in water, derivatives w.r.t. H2
        &[0.0, 0.0, 0.0,        0.0, 0.0, 0.0,       7.0, 0.7, -7.0],
        &[0.0, 0.0, 0.0,        0.0, 0.0, 0.0,       8.0, 0.8, -8.0],
        &[0.0, 0.0, 0.0,        0.0, 0.0, 0.0,       9.0, 0.9, -9.0],
        // H1 in water, derivatives w.r.t. H1
        &[10.0, 0.10, -10.0,    16.0, 0.16, -16.0,   0.0, 0.0, 0.0],
        &[11.0, 0.11, -11.0,    17.0, 0.17, -17.0,   0.0, 0.0, 0.0],
        &[12.0, 0.12, -12.0,    18.0, 0.18, -18.0,   0.0, 0.0, 0.0],
        // H1 in water, derivatives w.r.t. H2
        &[13.0, 0.13, -13.0,    0.0, 0.0, 0.0,       0.0, 0.0, 0.0],
        &[14.0, 0.14, -14.0,    0.0, 0.0, 0.0,       0.0, 0.0, 0.0],
        &[15.0, 0.15, -15.0,    0.0, 0.0, 0.0,       0.0, 0.0, 0.0],
        // H1 in water, derivatives w.r.t. O
        &[0.0, 0.0, 0.0,        19.0, 0.19, -19.0,   0.0, 0.0, 0.0],
        &[0.0, 0.0, 0.0,        20.0, 0.20, -20.0,   0.0, 0.0, 0.0],
        &[0.0, 0.0, 0.0,        21.0, 0.21, -21.0,   0.0, 0.0, 0.0],
        // H2 in water, derivatives w.r.t. H2
        &[22.0, 0.22, -22.0,    28.0, 0.28, -28.0,   0.0, 0.0, 0.0],
        &[23.0, 0.23, -23.0,    29.0, 0.29, -29.0,   0.0, 0.0, 0.0],
        &[24.0, 0.24, -24.0,    30.0, 0.30, -30.0,   0.0, 0.0, 0.0],
        // H2 in water, derivatives w.r.t. H1
        &[25.0, 0.25, -25.0,    0.0, 0.0, 0.0,       0.0, 0.0, 0.0],
        &[26.0, 0.26, -26.0,    0.0, 0.0, 0.0,       0.0, 0.0, 0.0],
        &[27.0, 0.27, -27.0,    0.0, 0.0, 0.0,       0.0, 0.0, 0.0],
        // H2 in water, derivatives w.r.t. O
        &[0.0, 0.0, 0.0,        31.0, 0.31, -31.0,   0.0, 0.0, 0.0],
        &[0.0, 0.0, 0.0,        32.0, 0.32, -32.0,   0.0, 0.0, 0.0],
        &[0.0, 0.0, 0.0,        33.0, 0.33, -33.0,   0.0, 0.0, 0.0]
    ]));
}

#[test]
fn densify_multiple_variables_user_values() {
    let mut descriptor = Descriptor::<f64>::new();

    let features = dummy_features();
    let (samples, gradients) = two_bodies_species_samples();
    descriptor.prepare_gradients(samples, gradients, features, 0.0);

    descriptor.values = two_bodies_values();
    descriptor.gradients = Some(two_bodies_gradients());

    let requested = vec![
    vec![v(1), v(1)],       // H-H
    vec![v(6), v(1)],       // missing
    vec![v(123456), v(1)],  // O-H
    ];
    descriptor.densify(&["species_center", "species_neighbor"], Some(&requested), 0.0).unwrap();

    assert_eq!((descriptor.values.len(), descriptor.values[0].len()), (3, 9));
    assert_eq!(descriptor.samples.names(), ["structure", "center"]);
    assert_eq!(descriptor.samples.value(0), [v(0), v(0)]);
    assert_eq!(descriptor.samples.value(1), [v(0), v(1)]);
    assert_eq!(descriptor.samples.value(2), [v(0), v(2)]);

    assert_eq!(descriptor.features.names(), ["species_center", "species_neighbor", "foo", "bar"]);
    assert_eq!(descriptor.features.value(0), [v(1), v(1), v(0), v(-1)]);
    assert_eq!(descriptor.features.value(1), [v(1), v(1), v(4), v(-2)]);
    assert_eq!(descriptor.features.value(2), [v(1), v(1), v(1), v(-5)]);
    assert_eq!(descriptor.features.value(3), [v(6), v(1), v(0), v(-1)]);
    assert_eq!(descriptor.features.value(4), [v(6), v(1), v(4), v(-2)]);
    assert_eq!(descriptor.features.value(5), [v(6), v(1), v(1), v(-5)]);
    assert_eq!(descriptor.features.value(6), [v(123456), v(1), v(0), v(-1)]);
    assert_eq!(descriptor.features.value(7), [v(123456), v(1), v(4), v(-2)]);
    assert_eq!(descriptor.features.value(8), [v(123456), v(1), v(1), v(-5)]);

    assert_eq!(descriptor.values, matrix(&[
        /*    H-H                 missing              O-H      */
        // O in water
        &[0.0, 0.0, 0.0,    /**/ 0.0, 0.0, 0.0, /**/ 1.0, 2.0, 3.0],
        // H1 in water
        &[4.0, 5.0, 6.0,    /**/ 0.0, 0.0, 0.0, /**/ 0.0, 0.0, 0.0],
        // H2 in water
        &[10.0, 11.0, 12.0, /**/ 0.0, 0.0, 0.0, /**/ 0.0, 0.0, 0.0]
    ]));

    let gradients = descriptor.gradients.as_ref().unwrap();
    assert_eq!(*gradients, matrix(&[
        /*    H-H                  missing               O-H       */
        // O in water, derivatives w.r.t. O
        &[0.0, 0.0, 0.0,        0.0, 0.0, 0.0,   1.0, 0.1, -1.0],
        &[0.0, 0.0, 0.0,        0.0, 0.0, 0.0,   2.0, 0.2, -2.0],
        &[0.0, 0.0, 0.0,        0.0, 0.0, 0.0,   3.0, 0.3, -3.0],
        // O in water, derivatives w.r.t. H1
        &[0.0, 0.0, 0.0,        0.0, 0.0, 0.0,   4.0, 0.4, -4.0],
        &[0.0, 0.0, 0.0,        0.0, 0.0, 0.0,   5.0, 0.5, -5.0],
        &[0.0, 0.0, 0.0,        0.0, 0.0, 0.0,   6.0, 0.6, -6.0],
        // O in water, derivatives w.r.t. H2
        &[0.0, 0.0, 0.0,        0.0, 0.0, 0.0,   7.0, 0.7, -7.0],
        &[0.0, 0.0, 0.0,        0.0, 0.0, 0.0,   8.0, 0.8, -8.0],
        &[0.0, 0.0, 0.0,        0.0, 0.0, 0.0,   9.0, 0.9, -9.0],
        // H1 in water, derivatives w.r.t. H1
        &[10.0, 0.10, -10.0,    0.0, 0.0, 0.0,   0.0, 0.0, 0.0],
        &[11.0, 0.11, -11.0,    0.0, 0.0, 0.0,   0.0, 0.0, 0.0],
        &[12.0, 0.12, -12.0,    0.0, 0.0, 0.0,   0.0, 0.0, 0.0],
        // H1 in water, derivatives w.r.t. H2
        &[13.0, 0.13, -13.0,    0.0, 0.0, 0.0,   0.0, 0.0, 0.0],
        &[14.0, 0.14, -14.0,    0.0, 0.0, 0.0,   0.0, 0.0, 0.0],
        &[15.0, 0.15, -15.0,    0.0, 0.0, 0.0,   0.0, 0.0, 0.0],
        // H1 in water, derivatives w.r.t. O
        &[0.0, 0.0, 0.0,        0.0, 0.0, 0.0,   0.0, 0.0, 0.0],
        &[0.0, 0.0, 0.0,        0.0, 0.0, 0.0,   0.0, 0.0, 0.0],
        &[0.0, 0.0, 0.0,        0.0, 0.0, 0.0,   0.0, 0.0, 0.0],
        // H2 in water, derivatives w.r.t. H2
        &[22.0, 0.22, -22.0,    0.0, 0.0, 0.0,   0.0, 0.0, 0.0],
        &[23.0, 0.23, -23.0,    0.0, 0.0, 0.0,   0.0, 0.0, 0.0],
        &[24.0, 0.24, -24.0,    0.0, 0.0, 0.0,   0.0, 0.0, 0.0],
        // H2 in water, derivatives w.r.t. H1
        &[25.0, 0.25, -25.0,    0.0, 0.0, 0.0,   0.0, 0.0, 0.0],
        &[26.0, 0.26, -26.0,    0.0, 0.0, 0.0,   0.0, 0.0, 0.0],
        &[27.0, 0.27, -27.0,    0.0, 0.0, 0.0,   0.0, 0.0, 0.0],
        // H2 in water, derivatives w.r.t. O
        &[0.0, 0.0, 0.0,        0.0, 0.0, 0.0,   0.0, 0.0, 0.0],
        &[0.0, 0.0, 0.0,        0.0, 0.0, 0.0,   0.0, 0.0, 0.0],
        &[0.0, 0.0, 0.0,        0.0, 0.0, 0.0,   0.0, 0.0, 0.0]
    ]));
}

fn worked_example() -> Descriptor<f64> {
    let mut samples = IndexesBuilder::new(vec!["structure", "species"]);
    for row in [[0, 1], [0, 6], [1, 6], [1, 8]] {
        samples.add(&row);
    }
    let mut features = IndexesBuilder::new(vec!["n", "l"]);
    features.add(&[0, 0]);
    features.add(&[1, 1]);
    let mut descriptor = Descriptor::new();
    descriptor.prepare(samples.finish(), features.finish(), 0.0);
    descriptor.values = matrix(&[&[1.0, 2.0], &[3.0, 4.0], &[5.0, 6.0], &[7.0, 8.0]]);
    descriptor
}

#[test]
fn densify_worked_example() {
    let mut descriptor = worked_example();
    descriptor.densify(&["species"], None, 0.0).unwrap();

    assert_eq!(descriptor.samples.names(), ["structure"]);
    assert_eq!(descriptor.samples.count(), 2);
    assert_eq!(descriptor.features.names(), ["species", "n", "l"]);
    assert_eq!(descriptor.features.count(), 6);
    assert_eq!(descriptor.features.value(0), [1, 0, 0]);
    assert_eq!(descriptor.features.value(2), [6, 0, 0]);
    assert_eq!(descriptor.features.value(5), [8, 1, 1]);
    assert_eq!(descriptor.values, matrix(&[
        &[1.0, 2.0, 3.0, 4.0, 0.0, 0.0],
        &[0.0, 0.0, 5.0, 6.0, 7.0, 8.0],
    ]));
}

#[test]
fn densify_without_variables_or_features() {
    let mut descriptor = worked_example();
    descriptor.densify(&[], None, 0.0).unwrap();
    assert_eq!(descriptor.samples.count(), 4);
    assert_eq!(descriptor.features.names(), ["n", "l"]);
    assert_eq!(descriptor.values, worked_example().values);

    let mut descriptor = Descriptor::<f64>::new();
    let mut samples = IndexesBuilder::new(vec!["structure", "species"]);
    samples.add(&[0, 1]);
    descriptor.prepare(samples.finish(), IndexesBuilder::new(vec![]).finish(), 0.0);
    descriptor.densify(&["species"], None, 0.0).unwrap();
    assert_eq!(descriptor.samples.names(), ["structure", "species"]);
    assert_eq!(descriptor.samples.count(), 1);
    assert_eq!(descriptor.values, vec![Vec::<f64>::new()]);
}

#[test]
fn densify_keeps_the_total() {
    let total = |values: &Vec<Vec<f64>>| values.iter().flatten().sum::<f64>();
    for variables in [&["species"][..], &["structure"][..]] {
        let mut descriptor = worked_example();
        let before = total(&descriptor.values);
        descriptor.densify(variables, None, 0.0).unwrap();
        assert_eq!(total(&descriptor.values), before);
    }
}

#[test]
fn densify_errors() {
    let mut descriptor = worked_example();
    assert!(matches!(descriptor.densify(&["center"], None, 0.0), Err(rascaline::Error::InvalidParameter(_))));
    let requested = vec![vec![v(1), v(2)]];
    assert!(descriptor.densify(&["species"], Some(&requested), 0.0).is_err());
    // nothing changed
    assert_eq!(descriptor.samples.count(), 4);
    assert_eq!(descriptor.values, worked_example().values);
    assert_eq!(descriptor.features.names(), ["n", "l"]);
    let error = descriptor.densify(&["center"], None, 0.0).unwrap_err();
    assert!(!error.message().is_empty());
}

#[test]
fn densify_every_column_without_rows() {
    let mut empty = Descriptor::<f64>::new();
    empty.prepare(IndexesBuilder::new(vec!["structure", "species"]).finish(), dummy_features(), 0.0);
    empty.densify(&["structure", "species"], None, 0.0).unwrap();
    assert_eq!(empty.samples.size(), 0);
    assert_eq!(empty.samples.count(), 0);
    assert_eq!(empty.features.names(), ["structure", "species", "foo", "bar"]);
    assert_eq!(empty.features.count(), 0);
    assert!(empty.values.is_empty());
}

#[test]
fn shapes_are_checked() {
    let mut descriptor = worked_example();
    assert!(descriptor.is_well_formed());
    descriptor.values.pop();
    assert!(!descriptor.is_well_formed());
    let mut descriptor = worked_example();
    descriptor.values[0].push(1.0);
    assert!(!descriptor.is_well_formed());
    let mut descriptor = worked_example();
    descriptor.gradients = Some(Vec::new());
    assert!(!descriptor.is_well_formed());
}
