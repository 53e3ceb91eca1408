use mcmc_store::stores::{Chain, ProbStore};

// Every valid triple maps into the buffer and no two triples share a slot.
#[test]
fn chain_index_unique_and_in_range() {
    let nparams: usize = 3;
    let nwalkers: usize = 4;
    let niterations: usize = 5;
    let chain = Chain::new(nparams, nwalkers, niterations);
    let total: usize = nparams * nwalkers * niterations;
    let mut seen = vec![false; total];
    for i in 0..niterations {
        for w in 0..nwalkers {
            for p in 0..nparams {
                let idx = chain.index(p, w, i);
                assert!(idx < total);
                assert!(!seen[idx]);
                seen[idx] = true;
            }
        }
    }
    assert!(seen.iter().all(|&s| s));
}

#[test]
fn probstore_index_unique_and_in_range() {
    let nwalkers: usize = 6;
    let niterations: usize = 7;
    let store = ProbStore::new(nwalkers, niterations);
    let total: usize = nwalkers * niterations;
    let mut seen = vec![false; total];
    for i in 0..niterations {
        for w in 0..nwalkers {
            let idx = store.index(w, i);
            assert!(idx < total);
            assert!(!seen[idx]);
            seen[idx] = true;
        }
    }
    assert!(seen.iter().all(|&s| s));
}

// A written cell reads back as written; every cell never written still
// holds the initialization value, the bit pattern of 0.0.
#[test]
fn chain_write_read_round_trip() {
    let nparams: usize = 2;
    let nwalkers: usize = 3;
    let niterations: usize = 4;
    let mut chain = Chain::new(nparams, nwalkers, niterations);
    for i in 0..niterations {
        for w in 0..nwalkers {
            for p in 0..nparams {
                assert_eq!(chain.get(p, w, i), 0.0f64.to_bits());
            }
        }
    }
    chain.set(1, 2, 3, 42.5f64.to_bits());
    for i in 0..niterations {
        for w in 0..nwalkers {
            for p in 0..nparams {
                if (p, w, i) == (1, 2, 3) {
                    assert_eq!(chain.get(p, w, i), 42.5f64.to_bits());
                } else {
                    assert_eq!(chain.get(p, w, i), 0.0f64.to_bits());
                }
            }
        }
    }
}

#[test]
fn probstore_write_read_round_trip() {
    let nwalkers: usize = 3;
    let niterations: usize = 4;
    let mut store = ProbStore::new(nwalkers, niterations);
    for i in 0..niterations {
        for w in 0..nwalkers {
            assert_eq!(store.get(w, i), 0.0f64.to_bits());
        }
    }
    store.set(2, 1, (-7.25f64).to_bits());
    for i in 0..niterations {
        for w in 0..nwalkers {
            if (w, i) == (2, 1) {
                assert_eq!(store.get(w, i), (-7.25f64).to_bits());
            } else {
                assert_eq!(store.get(w, i), 0.0f64.to_bits());
            }
        }
    }
}

// One bulk write equals the ascending sequence of per-cell writes.
#[test]
fn chain_bulk_write_matches_individual_sets() {
    let nparams: usize = 4;
    let nwalkers: usize = 3;
    let niterations: usize = 2;
    let values: Vec<u64> = vec![
        1.5f64.to_bits(),
        2.5f64.to_bits(),
        3.5f64.to_bits(),
        4.5f64.to_bits(),
    ];
    let mut bulk = Chain::new(nparams, nwalkers, niterations);
    let mut single = Chain::new(nparams, nwalkers, niterations);
    bulk.set_params(1, 1, &values);
    for p in 0..nparams {
        single.set(p, 1, 1, values[p]);
    }
    assert_eq!(bulk.data, single.data);
    for p in 0..nparams {
        assert_eq!(bulk.get(p, 1, 1), values[p]);
    }
}

#[test]
fn probstore_bulk_write_matches_individual_sets() {
    let nwalkers: usize = 3;
    let niterations: usize = 2;
    let values: Vec<u64> = vec![9.0f64.to_bits(), 8.0f64.to_bits(), 7.0f64.to_bits()];
    let mut bulk = ProbStore::new(nwalkers, niterations);
    let mut single = ProbStore::new(nwalkers, niterations);
    bulk.set_probs(1, &values);
    for w in 0..nwalkers {
        single.set(w, 1, values[w]);
    }
    assert_eq!(bulk.data, single.data);
    for w in 0..nwalkers {
        assert_eq!(bulk.get(w, 1), values[w]);
    }
}

// Flattening yields niterations * nwalkers records, iteration-major:
// record k belongs to iteration k / nwalkers and walker k % nwalkers.
#[test]
fn flatchain_length_and_order() {
    let nparams: usize = 2;
    let nwalkers: usize = 3;
    let niterations: usize = 4;
    let mut chain = Chain::new(nparams, nwalkers, niterations);
    for i in 0..niterations {
        for w in 0..nwalkers {
            for p in 0..nparams {
                let value = (p * 100 + w * 10 + i) as f64;
                chain.set(p, w, i, value.to_bits());
            }
        }
    }
    let flat = chain.flatchain();
    assert_eq!(flat.len(), niterations * nwalkers);
    for (k, guess) in flat.iter().enumerate() {
        let i = k / nwalkers;
        let w = k % nwalkers;
        assert_eq!(guess.values.len(), nparams);
        for p in 0..nparams {
            let expected = (p * 100 + w * 10 + i) as f64;
            assert_eq!(guess.values[p], expected.to_bits());
        }
    }
}

#[test]
fn flatprob_length_and_order() {
    let nwalkers: usize = 3;
    let niterations: usize = 4;
    let mut store = ProbStore::new(nwalkers, niterations);
    for i in 0..niterations {
        for w in 0..nwalkers {
            let value = (w * 10 + i) as f64;
            store.set(w, i, value.to_bits());
        }
    }
    let flat = store.flatprob();
    assert_eq!(flat.len(), niterations * nwalkers);
    for (k, &word) in flat.iter().enumerate() {
        let i = k / nwalkers;
        let w = k % nwalkers;
        let expected = (w * 10 + i) as f64;
        assert_eq!(word, expected.to_bits());
    }
}

// Zero-sized dimensions build empty stores, and flattening still returns
// exactly niterations * nwalkers records.
#[test]
fn empty_shapes() {
    let chain = Chain::new(0, 2, 3);
    assert_eq!(chain.data.len(), 0);
    let flat = chain.flatchain();
    assert_eq!(flat.len(), 6);
    for guess in &flat {
        assert_eq!(guess.values.len(), 0);
    }

    let chain2 = Chain::new(2, 0, 3);
    assert_eq!(chain2.data.len(), 0);
    assert_eq!(chain2.flatchain().len(), 0);

    let store = ProbStore::new(0, 5);
    assert_eq!(store.data.len(), 0);
    assert_eq!(store.flatprob().len(), 0);

    let store2 = ProbStore::new(5, 0);
    assert_eq!(store2.data.len(), 0);
    assert_eq!(store2.flatprob().len(), 0);
}
