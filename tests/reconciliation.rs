use negentropy::hex;
use negentropy::{Bytes, Error, Negentropy};

fn ids_from_hex(ids: &[&str]) -> Vec<Bytes> {
    ids.iter().map(|s| Bytes::from_hex(s).unwrap()).collect()
}

/// Runs a whole session between `client` and `server`; returns have, need
/// and the number of round trips.
fn run_session(client: &mut Negentropy, server: &mut Negentropy, limit: usize) -> (Vec<Bytes>, Vec<Bytes>, usize) {
    let mut have = Vec::new();
    let mut need = Vec::new();
    let mut msg = client.initiate().unwrap();
    let mut rounds = 0;
    loop {
        if limit > 0 {
            assert!(msg.len() <= limit);
        }
        let answer = server.reconcile(&msg).unwrap();
        if limit > 0 {
            assert!(answer.len() <= limit);
        }
        rounds += 1;
        match client.reconcile_with_ids(&answer, &mut have, &mut need).unwrap() {
            Some(next) => msg = next,
            None => break,
        }
        assert!(rounds < 1000);
    }
    (have, need, rounds)
}

fn make(id_size: u8, limit: Option<u64>, items: &[(u64, Vec<u8>)]) -> Negentropy {
    let mut n = Negentropy::new(id_size, limit).unwrap();
    for (ts, id) in items {
        n.add_item(*ts, Bytes::from_slice(id)).unwrap();
    }
    n.seal().unwrap();
    n
}

/// Deterministic pseudo-random ids.
fn pseudo_ids(seed: u64, count: usize, size: usize) -> Vec<(u64, Vec<u8>)> {
    let mut x = seed.wrapping_mul(6364136223846793005).wrapping_add(1442695040888963407);
    let mut out = Vec::new();
    for i in 0..count {
        let mut id = Vec::new();
        for _ in 0..size {
            x = x.wrapping_mul(6364136223846793005).wrapping_add(1442695040888963407);
            id.push((x >> 33) as u8);
        }
        out.push((1_600_000_000 + (i as u64 % 97) * 13, id));
    }
    out
}

fn sorted(mut v: Vec<Bytes>) -> Vec<Bytes> {
    v.sort();
    v
}

#[test]
fn test_reconciliation_set() {
    // Client
    let mut client = Negentropy::new(16, None).unwrap();
    client
        .add_item(0, Bytes::from_hex("aaaaaaaaaaaaaaaaaaaaaaaaaaaaaaaa").unwrap())
        .unwrap();
    client
        .add_item(1, Bytes::from_hex("bbbbbbbbbbbbbbbbbbbbbbbbbbbbbbbb").unwrap())
        .unwrap();
    client.seal().unwrap();
    let init_output = client.initiate().unwrap();

    // Relay
    let mut relay = Negentropy::new(16, None).unwrap();
    relay
        .add_item(0, Bytes::from_hex("aaaaaaaaaaaaaaaaaaaaaaaaaaaaaaaa").unwrap())
        .unwrap();
    relay
        .add_item(2, Bytes::from_hex("cccccccccccccccccccccccccccccccc").unwrap())
        .unwrap();
    relay
        .add_item(3, Bytes::from_hex("11111111111111111111111111111111").unwrap())
        .unwrap();
    relay
        .add_item(5, Bytes::from_hex("22222222222222222222222222222222").unwrap())
        .unwrap();
    relay
        .add_item(10, Bytes::from_hex("33333333333333333333333333333333").unwrap())
        .unwrap();
    relay.seal().unwrap();
    let reconcile_output = relay.reconcile(&init_output).unwrap();

    // Client
    let mut have_ids = Vec::new();
    let mut need_ids = Vec::new();
    let reconcile_output_with_ids = client
        .reconcile_with_ids(&reconcile_output, &mut have_ids, &mut need_ids)
        .unwrap();

    // Check reconcile with IDs output
    assert!(reconcile_output_with_ids.is_none());

    // Check have IDs
    assert!(have_ids.contains(&Bytes::from_hex("bbbbbbbbbbbbbbbbbbbbbbbbbbbbbbbb").unwrap()));

    // Check need IDs
    need_ids.sort();
    assert_eq!(
        need_ids,
        vec![
            Bytes::from_hex("11111111111111111111111111111111").unwrap(),
            Bytes::from_hex("22222222222222222222222222222222").unwrap(),
            Bytes::from_hex("33333333333333333333333333333333").unwrap(),
            Bytes::from_hex("cccccccccccccccccccccccccccccccc").unwrap(),
        ]
    )
}

#[test]
fn lib_test_reconciliation_set() {
    let add = |n: &mut Negentropy, ts: u64, id: &str| {
        n.add_item(ts, Bytes::from_vec(hex::decode(id).unwrap()))
    };
    // Client
    let mut client = Negentropy::new(16, None).unwrap();
    add(&mut client, 0, "aaaaaaaaaaaaaaaaaaaaaaaaaaaaaaaa").unwrap();
    add(&mut client, 1, "bbbbbbbbbbbbbbbbbbbbbbbbbbbbbbbb").unwrap();
    client.seal().unwrap();
    let init_output = client.initiate().unwrap();

    // Relay
    let mut relay = Negentropy::new(16, None).unwrap();
    add(&mut relay, 0, "aaaaaaaaaaaaaaaaaaaaaaaaaaaaaaaa").unwrap();
    add(&mut relay, 2, "cccccccccccccccccccccccccccccccc").unwrap();
    add(&mut relay, 3, "11111111111111111111111111111111").unwrap();
    add(&mut relay, 5, "22222222222222222222222222222222").unwrap();
    add(&mut relay, 10, "33333333333333333333333333333333").unwrap();
    relay.seal().unwrap();
    let reconcile_output = relay.reconcile(&init_output).unwrap();

    // Client
    let mut have_ids = Vec::new();
    let mut need_ids = Vec::new();
    let reconcile_output_with_ids = client
        .reconcile_with_ids(&reconcile_output, &mut have_ids, &mut need_ids)
        .unwrap();

    assert!(reconcile_output_with_ids.is_none());

    let have_hex: Vec<String> = have_ids.iter().map(|b| b.to_hex()).collect();
    assert!(have_hex.contains(&String::from("bbbbbbbbbbbbbbbbbbbbbbbbbbbbbbbb")));

    let mut need_hex: Vec<String> = need_ids.iter().map(|b| b.to_hex()).collect();
    need_hex.sort();
    assert_eq!(
        need_hex,
        vec![
            String::from("11111111111111111111111111111111"),
            String::from("22222222222222222222222222222222"),
            String::from("33333333333333333333333333333333"),
            String::from("cccccccccccccccccccccccccccccccc"),
        ]
    )
}

#[test]
fn test_invalid_id_size() {
    assert_eq!(Negentropy::new(33, None).unwrap_err(), Error::InvalidIdSize);

    let mut client = Negentropy::new(16, None).unwrap();
    assert_eq!(
        client
            .add_item(0, Bytes::from_hex("abcdef").unwrap())
            .unwrap_err(),
        Error::InvalidIdSize
    );
}

#[test]
fn lib_test_invalid_id_size() {
    assert_eq!(Negentropy::new(33, None).unwrap_err(), Error::InvalidIdSize);

    let mut client = Negentropy::new(16, None).unwrap();
    assert_eq!(
        client
            .add_item(0, Bytes::from_vec(hex::decode("abcdef").unwrap()))
            .unwrap_err(),
        Error::InvalidIdSize
    );
}

#[test]
fn construction_errors() {
    assert_eq!(Negentropy::new(7, None).unwrap_err(), Error::InvalidIdSize);
    assert_eq!(Negentropy::new(16, Some(100)).unwrap_err(), Error::FrameSizeLimitTooSmall);
    assert_eq!(Negentropy::new(16, Some(4095)).unwrap_err(), Error::FrameSizeLimitTooSmall);
    assert!(Negentropy::new(8, Some(0)).is_ok());
    assert!(Negentropy::new(32, Some(4096)).is_ok());
}

#[test]
fn lifecycle_errors() {
    let mut n = Negentropy::new(8, None).unwrap();
    assert_eq!(n.initiate().unwrap_err(), Error::NotSealed);
    assert_eq!(n.reconcile(&Bytes::from_slice(&[])).unwrap_err(), Error::NotSealed);
    n.add_item(1, Bytes::from_slice(&[1; 8])).unwrap();
    n.seal().unwrap();
    assert_eq!(n.seal().unwrap_err(), Error::AlreadySealed);
    assert_eq!(n.add_item(2, Bytes::from_slice(&[2; 8])).unwrap_err(), Error::AlreadySealed);
    let mut have = Vec::new();
    let mut need = Vec::new();
    assert_eq!(
        n.reconcile_with_ids(&Bytes::from_slice(&[]), &mut have, &mut need).unwrap_err(),
        Error::NonInitiator
    );
    assert!(!n.is_initiator());
    n.initiate().unwrap();
    assert!(n.is_initiator());
    assert_eq!(n.reconcile(&Bytes::from_slice(&[])).unwrap_err(), Error::Initiator);
}

#[test]
fn initiate_frame_is_sorted_id_list() {
    let mut n = Negentropy::new(8, None).unwrap();
    n.add_item(5, Bytes::from_slice(&[0xbb; 8])).unwrap();
    n.add_item(5, Bytes::from_slice(&[0xaa; 8])).unwrap();
    n.seal().unwrap();
    let frame = n.initiate().unwrap();
    let mut expected = vec![0x00, 0x00, 0x02, 0x02];
    expected.extend_from_slice(&[0xaa; 8]);
    expected.extend_from_slice(&[0xbb; 8]);
    assert_eq!(frame.as_bytes(), &expected[..]);
}

#[test]
fn deprecated_mode_is_refused() {
    let mut server = make(16, None, &[(1, vec![1; 16])]);
    // bound (MAX, empty), mode 3
    let q = Bytes::from_slice(&[0x00, 0x00, 0x03]);
    assert_eq!(server.reconcile(&q).unwrap_err(), Error::DeprecatedProtocol);
}

#[test]
fn parse_errors() {
    let mut server = make(16, None, &[(1, vec![1; 16])]);
    assert_eq!(
        server.reconcile(&Bytes::from_slice(&[0x00, 0x00, 0x07])).unwrap_err(),
        Error::UnexpectedMode(7)
    );
    assert_eq!(
        server.reconcile(&Bytes::from_slice(&[0x00, 0x00, 0x01, 0xaa])).unwrap_err(),
        Error::ParseEndsPrematurely
    );
    assert_eq!(
        server.reconcile(&Bytes::from_slice(&[0x00, 0x00, 0x02, 0x02, 0xaa])).unwrap_err(),
        Error::ParseEndsPrematurely
    );
    assert_eq!(
        server.reconcile(&Bytes::from_slice(&[0x00, 0x80])).unwrap_err(),
        Error::PrematureEndOfVarInt
    );
}

#[test]
fn empty_query_gives_empty_answer() {
    let mut server = make(16, None, &[(1, vec![1; 16])]);
    let answer = server.reconcile(&Bytes::from_slice(&[])).unwrap();
    assert!(answer.is_empty());
}

#[test]
fn identical_stores_finish_in_one_round() {
    let items = vec![(0, vec![0xaa; 16]), (1, vec![0xbb; 16])];
    let mut client = make(16, None, &items);
    let mut server = make(16, None, &items);
    let (have, need, rounds) = run_session(&mut client, &mut server, 0);
    assert_eq!(rounds, 1);
    assert!(have.is_empty());
    assert!(need.is_empty());
}

#[test]
fn identical_large_stores_finish_in_one_round() {
    let items = pseudo_ids(7, 3000, 16);
    let mut client = make(16, None, &items);
    let mut server = make(16, None, &items);
    let (have, need, rounds) = run_session(&mut client, &mut server, 0);
    assert_eq!(rounds, 1);
    assert!(have.is_empty() && need.is_empty());
}

#[test]
fn empty_client_needs_everything() {
    let items = pseudo_ids(3, 1000, 16);
    let mut client = make(16, None, &[]);
    let mut server = make(16, None, &items);
    let (have, need, _) = run_session(&mut client, &mut server, 0);
    assert!(have.is_empty());
    let expected: Vec<Bytes> = items.iter().map(|(_, id)| Bytes::from_slice(id)).collect();
    assert_eq!(sorted(need), sorted(expected));
}

#[test]
fn subset_client_gets_difference() {
    let all = pseudo_ids(11, 2000, 16);
    let subset: Vec<(u64, Vec<u8>)> = all.iter().step_by(3).cloned().collect();
    let mut client = make(16, None, &subset);
    let mut server = make(16, None, &all);
    let (have, need, _) = run_session(&mut client, &mut server, 0);
    assert!(have.is_empty());
    let expected: Vec<Bytes> = all
        .iter()
        .enumerate()
        .filter(|(i, _)| i % 3 != 0)
        .map(|(_, (_, id))| Bytes::from_slice(id))
        .collect();
    assert_eq!(sorted(need), sorted(expected));
}

#[test]
fn divergent_stores_give_both_differences() {
    let all = pseudo_ids(5, 5000, 32);
    let a: Vec<(u64, Vec<u8>)> = all.iter().enumerate().filter(|(i, _)| i % 5 != 0).map(|(_, x)| x.clone()).collect();
    let b: Vec<(u64, Vec<u8>)> = all.iter().enumerate().filter(|(i, _)| i % 7 != 0).map(|(_, x)| x.clone()).collect();
    let mut client = make(32, None, &a);
    let mut server = make(32, None, &b);
    let (have, need, _) = run_session(&mut client, &mut server, 0);
    let only_a: Vec<Bytes> = all.iter().enumerate().filter(|(i, _)| i % 5 != 0 && i % 7 == 0).map(|(_, (_, id))| Bytes::from_slice(id)).collect();
    let only_b: Vec<Bytes> = all.iter().enumerate().filter(|(i, _)| i % 5 == 0 && i % 7 != 0).map(|(_, (_, id))| Bytes::from_slice(id)).collect();
    assert_eq!(sorted(have), sorted(only_a));
    assert_eq!(sorted(need), sorted(only_b));
}

#[test]
fn frame_size_limit_is_respected() {
    let all = pseudo_ids(9, 100_000, 16);
    let a: Vec<(u64, Vec<u8>)> = all.iter().enumerate().filter(|(i, _)| i % 2 == 0).map(|(_, x)| x.clone()).collect();
    let b: Vec<(u64, Vec<u8>)> = all.iter().enumerate().filter(|(i, _)| i % 3 == 0).map(|(_, x)| x.clone()).collect();
    let mut client = make(16, Some(4096), &a);
    let mut server = make(16, Some(4096), &b);
    let (have, need, rounds) = run_session(&mut client, &mut server, 4096);
    assert!(rounds > 1);
    let only_a: Vec<Bytes> = all.iter().enumerate().filter(|(i, _)| i % 2 == 0 && i % 3 != 0).map(|(_, (_, id))| Bytes::from_slice(id)).collect();
    let only_b: Vec<Bytes> = all.iter().enumerate().filter(|(i, _)| i % 2 != 0 && i % 3 == 0).map(|(_, (_, id))| Bytes::from_slice(id)).collect();
    assert_eq!(sorted(have), sorted(only_a));
    assert_eq!(sorted(need), sorted(only_b));
}

#[test]
fn continuation_mark_when_work_remains() {
    let server_items = pseudo_ids(13, 5000, 32);
    let mut client = make(32, Some(4096), &[]);
    let mut server = make(32, Some(4096), &server_items);
    let q = client.initiate().unwrap();
    let answer = server.reconcile(&q).unwrap();
    assert!(answer.len() <= 4096);
    let bytes = answer.as_bytes();
    assert_eq!(&bytes[bytes.len() - 3..], &[0x00, 0x00, 0x04]);
}
