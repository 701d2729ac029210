use negentropy::{Bytes, Negentropy};

const ID_SIZE: u8 = 16;
const FRAME_SIZE_LIMIT: Option<u64> = None;
const ITEMS_LEN: usize = 100_000;

fn generate_combinations(characters: &str, length: usize, max: usize) -> Vec<String> {
    let mut combinations = Vec::new();
    let mut current = String::new();
    generate_combinations_recursive(&mut combinations, &mut current, characters, length, 0, max);
    combinations
}

fn generate_combinations_recursive(
    combinations: &mut Vec<String>,
    current: &mut String,
    characters: &str,
    length: usize,
    index: usize,
    max: usize,
) {
    if length == 0 {
        combinations.push(current.clone());
        return;
    }

    for char in characters.chars() {
        if combinations.len() < max {
            current.push(char);
            generate_combinations_recursive(combinations, current, characters, length - 1, index + 1, max);
            current.pop();
        } else {
            return;
        }
    }
}

fn store(count: usize) -> Negentropy {
    let mut n = Negentropy::new(ID_SIZE, FRAME_SIZE_LIMIT).unwrap();
    for (index, item) in generate_combinations("abc", 32, count).into_iter().enumerate() {
        n.add_item(index as u64, Bytes::from_hex(&item).unwrap()).unwrap();
    }
    n.seal().unwrap();
    n
}

#[test]
fn add_item() {
    let mut client = Negentropy::new(ID_SIZE, FRAME_SIZE_LIMIT).unwrap();
    for _ in 0..1000 {
        client
            .add_item(0, Bytes::from_hex("aaaaaaaaaaaaaaaaaaaaaaaaaaaaaaaa").unwrap())
            .unwrap();
    }
}

#[test]
fn initiate_100_000_items() {
    let mut client = store(ITEMS_LEN);
    let frame = client.initiate().unwrap();
    // 16 fingerprints: bound, mode and a 16-byte digest each
    assert!(frame.len() > 16 * 17);
}

#[test]
fn reconcile_100_000_items() {
    let mut client = store(2);
    let init_output = client.initiate().unwrap();
    let mut relay = store(ITEMS_LEN);
    let answer = relay.reconcile(&init_output).unwrap();
    assert!(!answer.is_empty());
}

#[test]
fn final_reconciliation_100_000_items() {
    let mut client = store(2);
    let init_output = client.initiate().unwrap();
    let mut relay = store(ITEMS_LEN);
    let reconcile_output = relay.reconcile(&init_output).unwrap();
    let mut have_ids = Vec::new();
    let mut need_ids = Vec::new();
    let next = client
        .reconcile_with_ids(&reconcile_output, &mut have_ids, &mut need_ids)
        .unwrap();
    assert!(next.is_none());
    assert!(have_ids.is_empty());
    assert_eq!(need_ids.len(), ITEMS_LEN - 2);
}
