use mcmc_store::stores::{Chain, ProbStore};

#[test]
fn test_chain() {
    let nparams: usize = 2;
    let nwalkers: usize = 10;
    let niterations: usize = 1000;
    let mut chain = Chain::new(nparams, nwalkers, niterations);
    assert_eq!(chain.data.len(), nparams * nwalkers * niterations);

    assert_eq!(chain.index(0, 0, 0), 0);
    assert_eq!(chain.index(1, 0, 0), 1);
    assert_eq!(chain.index(0, 1, 0), 2);
    assert_eq!(chain.index(1, 1, 0), 3);
    assert_eq!(chain.index(0, 2, 0), 4);
    assert_eq!(chain.index(0, 9, 0), 18);
    assert_eq!(chain.index(0, 0, 1), 20);

    chain.set(0, 1, 0, 2.0f64.to_bits());
    assert_eq!(chain.data[2], 2.0f64.to_bits());
    assert_eq!(chain.get(0, 1, 0), 2.0f64.to_bits());

    let newdata = vec![5.0f64.to_bits(), 100.0f64.to_bits()];
    chain.set_params(1, 250, &newdata);

    assert_eq!(chain.get(0, 1, 250), 5.0f64.to_bits());
    assert_eq!(chain.get(1, 1, 250), 100.0f64.to_bits());
}

#[test]
fn test_probstore() {
    let nwalkers: usize = 4;
    let niterations: usize = 1000;
    let mut store = ProbStore::new(nwalkers, niterations);
    assert_eq!(store.data.len(), nwalkers * niterations);

    assert_eq!(store.index(0, 0), 0);
    assert_eq!(store.index(2, 0), 2);
    assert_eq!(store.index(0, 1), 4);

    store.set(1, 0, 2.0f64.to_bits());
    assert_eq!(store.data[1], 2.0f64.to_bits());
    assert_eq!(store_get(&store, 1, 0), 2.0f64.to_bits());

    let newdata = vec![
        5.0f64.to_bits(),
        100.0f64.to_bits(),
        1.0f64.to_bits(),
        20f64.to_bits(),
    ];
    store.set_probs(250, &newdata);

    assert_eq!(store_get(&store, 0, 250), 5.0f64.to_bits());
    assert_eq!(store_get(&store, 1, 250), 100.0f64.to_bits());
    assert_eq!(store_get(&store, 3, 250), 20.0f64.to_bits());
}

fn store_get(store: &ProbStore, walker_idx: usize, iteration_idx: usize) -> u64 {
    assert!(walker_idx < store.nwalkers);
    assert!(iteration_idx < store.niterations);

    let idx = store.index(walker_idx, iteration_idx);

    store.data[idx]
}
