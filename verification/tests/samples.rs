use zsqlite::domain::{LogicalBytes, PageSize};
use zsqlite::samples::{SampleBudget, Samples};

fn page(index: u32) -> Vec<u8> {
    let mut bytes = vec![0; 4096];
    bytes[..4].copy_from_slice(&index.to_le_bytes());
    bytes
}

fn values(samples: &Samples) -> Vec<Vec<u8>> {
    let pages = samples.pages();
    (0..pages.len()).map(|i| pages.value_at(i).clone()).collect()
}

#[test]
fn bounded_reservoir_covers_the_whole_input_independent_of_order() {
    let budget = SampleBudget::new(1024 * 1024).unwrap();
    let mut forward = Samples::new(budget);
    let mut reverse = Samples::new(budget);
    for index in 0..4096 {
        forward.insert(page(index));
    }
    for index in (0..4096).rev() {
        reverse.insert(page(index));
    }
    assert_eq!(forward.pages(), reverse.pages());
    assert_eq!(forward.bytes(), budget.get());
    assert!(
        values(&forward)
            .iter()
            .any(|bytes| u32::from_le_bytes(bytes[..4].try_into().unwrap()) >= 3072)
    );
    assert!(forward.evaluation().is_some(), "missing evaluation");
    for index in 0..4096 {
        forward.insert(page(index));
    }
    assert_eq!(forward.fresh(), 0, "rejected/duplicate samples must not retrigger training");
    assert!(forward.evaluation().is_none());
}

#[test]
fn stored_samples_come_back() {
    let budget = SampleBudget::new(1024 * 1024).unwrap();
    let mut pool = Samples::new(budget);
    assert!(pool.persist().unwrap().is_none());
    for index in 0..64 {
        pool.insert(page(index));
    }
    assert!(pool.evaluation().is_none());
    let stored = pool.persist().unwrap().unwrap();
    let loaded = Samples::load(&stored, budget);
    assert_eq!(loaded.pages(), pool.pages());
    assert_eq!(loaded.fresh(), 64 * 4096);
    assert!(!loaded.dirty());
    let trimmed = Samples::load(&stored, SampleBudget::new(16 * 4096).unwrap());
    assert_eq!(trimmed.bytes(), 16 * 4096);
    assert!(trimmed.dirty());
    assert_eq!(Samples::load(b"truncated", budget).bytes(), 0);
    assert!(SampleBudget::new(96 * 1024 * 1024 + 1).is_err());
}

#[test]
fn a_dictionary_is_promoted_only_where_it_pays() {
    let size = PageSize::new(4096).unwrap();
    let budget = SampleBudget::new(8 * 1024 * 1024).unwrap();
    let mut pool = Samples::new(budget);
    // Pages that share a long, irregular middle part.
    let mut state = 17_u32;
    let shared: Vec<u8> = (0..3000)
        .map(|_| {
            state ^= state << 13;
            state ^= state >> 17;
            state ^= state << 5;
            state.to_le_bytes()[0]
        })
        .collect();
    for index in 0..512 {
        let mut bytes = page(index);
        bytes[100..3100].copy_from_slice(&shared);
        pool.insert(bytes);
    }
    let evaluation = pool.evaluation().unwrap();
    let large = LogicalBytes::new(4096 * 1_000_000, size).unwrap();
    let promoted = evaluation.select(&vec![8192], 3, large, &Vec::new()).unwrap();
    assert!(!promoted.is_empty() && promoted.len() <= 8192);
    // The dictionary is there already: nothing is gained.
    assert!(evaluation.select(&vec![8192], 3, large, &vec![promoted.clone()]).is_none());
    // Whatever the candidates are, the first of the cheapest is promoted.
    let useless = vec![7; 8192];
    let offered = vec![None, Some(useless), Some(promoted.clone()), Some(promoted.clone())];
    assert_eq!(
        evaluation.promote(3, large, &Vec::new(), offered),
        Some(promoted)
    );
    assert!(evaluation.promote(3, large, &Vec::new(), vec![None]).is_none());
    // The image is empty: the dictionary would only cost.
    let empty = LogicalBytes::new(0, size).unwrap();
    assert!(evaluation.select(&vec![8192], 3, empty, &Vec::new()).is_none());
}
