use treelars::generics::{Bool, False, True};
use treelars::graphidx::weights::{ArrayWeights, ConstantWeights, Weights};

#[test]
fn constant_weights_13() {
    let w = ConstantWeights::new(13.5);
    assert_eq!(w[5], 13.5);
    assert_eq!(w[0], 13.5);
    assert_eq!(w[13], 13.5);
}

#[test]
fn array_weights_by_index() {
    let w = ArrayWeights::new(vec![1, 2, 5]);
    assert_eq!(w[2], 5);
    assert_eq!(w[0], 1);
    assert_eq!(w[1], 2);
    assert_eq!(w.len(), 3);
    assert_eq!(*w.weight(2), 5);
}

#[test]
fn constant_weights_len_is_unbounded() {
    let w = ConstantWeights::new(7u8);
    assert_eq!(w.len(), usize::MAX);
    assert_eq!(*w.weight(1_000_000), 7);
}

fn use_bool<T: Bool>() -> bool {
    T::is_true()
}

#[test]
fn test_use_bool() {
    assert!(!use_bool::<False>());
    assert!(use_bool::<True>());
}
