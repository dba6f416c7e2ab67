use wordle_generator::feistel::FeistelNetwork;
use wordle_generator::WordleError;

#[test]
fn small_domain() {
    let keys = vec![0x12, 8];
    let network = FeistelNetwork::with_keys(4, keys).unwrap();
    assert_eq!(network.permute(1), network.permute(1));
    assert_ne!(network.permute(2), network.permute(3));
}

#[test]
fn for_domain_rounds_up() {
    let mut network = FeistelNetwork::for_domain(347).unwrap(); // n = 10
    network.rekey(vec![0x34]); // initialize, one round

    let mut seen = [false; 1 << 10];
    for value in 0..1 << 10 {
        let result = network.permute(value) as usize;
        seen[result] = true;
    }
    assert!(seen.iter().all(|&x| x));
}

#[test]
fn bijective() {
    let keys = vec![0xAB; 8];
    let network = FeistelNetwork::with_keys(12, keys).unwrap();

    let mut seen = [false; 1 << 12];
    for value in 0..1 << 12 {
        let result = network.permute(value) as usize;
        assert!(!seen[result]);
        seen[result] = true;
    }
    assert!(seen.iter().all(|&x| x));
}

#[test]
fn idempotent() {
    let keys = vec![0xCD; 8];
    let network = FeistelNetwork::with_keys(8, keys).unwrap();
    for value in 0..1 << 8 {
        let expected = network.permute(value);
        for _ in 0..4 {
            assert_eq!(network.permute(value), expected);
        }
    }
}

#[test]
fn len_must_be_positive() {
    assert_eq!(
        FeistelNetwork::new(0).map(|_| ()),
        Err(WordleError::InvalidDomain)
    );
}

#[test]
fn must_be_balanced() {
    assert_eq!(
        FeistelNetwork::new(3).map(|_| ()),
        Err(WordleError::InvalidDomain)
    );
}

#[test]
fn width_limits() {
    assert!(FeistelNetwork::new(2).is_ok());
    assert!(FeistelNetwork::new(64).is_ok());
    assert_eq!(
        FeistelNetwork::new(66).map(|_| ()),
        Err(WordleError::InvalidDomain)
    );
    assert_eq!(
        FeistelNetwork::new(63).map(|_| ()),
        Err(WordleError::InvalidDomain)
    );
}

#[test]
fn domain_sizing() {
    assert_eq!(FeistelNetwork::for_domain(1).unwrap().bit_len(), 2);
    assert_eq!(FeistelNetwork::for_domain(2).unwrap().bit_len(), 2);
    assert_eq!(FeistelNetwork::for_domain(4).unwrap().bit_len(), 2);
    assert_eq!(FeistelNetwork::for_domain(5).unwrap().bit_len(), 4);
    assert_eq!(FeistelNetwork::for_domain(347).unwrap().bit_len(), 10);
    assert_eq!(
        FeistelNetwork::for_domain(0).map(|_| ()),
        Err(WordleError::InvalidDomain)
    );
}

#[test]
fn round_function_reacts_to_input() {
    // If the keyed round function handed its input straight back, zero
    // would be a fixed point of every one-round network; the real hash
    // moves it for at least one of these keys.
    let mut moved = false;
    for key in 0..21 {
        let network = FeistelNetwork::with_keys(16, vec![key]).unwrap();
        if network.permute(0) != 0 {
            moved = true;
        }
    }
    assert!(moved);
}
